//! Paths over floor and door tiles: why the floor of a generated map hangs
//! together.

use crate::assembly::Assembly;
use crate::grid::{lemma_put, Tiles};
use crate::room::{lemma_connectors, RoomShape};
use crate::tile::{Connector, TileState};
use crate::upkeep::{lemma_attached, lemma_merged};
use crate::walls::ray_step;
use vstd::prelude::*;

verus! {

/// The two positions are neighbours in a row or in a column.
pub open spec fn adjacent(a: (int, int), b: (int, int)) -> bool {
    ||| (a.0 == b.0 && (a.1 == b.1 + 1 || b.1 == a.1 + 1))
    ||| (a.1 == b.1 && (a.0 == b.0 + 1 || b.0 == a.0 + 1))
}

impl Tiles {
    /// A tile that can be walked on: `Floor` or `Door`.
    pub open spec fn passable(self, p: (int, int)) -> bool {
        self.contains(p.0, p.1) && (self.at(p.0, p.1) == TileState::Floor || self.at(p.0, p.1)
            == TileState::Door)
    }

    /// A walk over passable tiles, each step to a neighbour.
    pub open spec fn is_path(self, path: Seq<(int, int)>) -> bool {
        &&& path.len() > 0
        &&& forall|i: int| 0 <= i < path.len() ==> self.passable(#[trigger] path[i])
        &&& forall|i: int|
            #![trigger path[i]]
            0 <= i < path.len() - 1 ==> adjacent(path[i], path[i + 1])
    }

    /// `path` is a walk from `a` to `b`.
    pub open spec fn joins(self, path: Seq<(int, int)>, a: (int, int), b: (int, int)) -> bool {
        self.is_path(path) && path[0] == a && path.last() == b
    }

    /// There is a walk from `a` to `b`.
    pub open spec fn linked(self, a: (int, int), b: (int, int)) -> bool {
        exists|path: Seq<(int, int)>| #[trigger] self.joins(path, a, b)
    }

    /// From every floor tile there is a walk to every other.
    pub open spec fn floor_connected(self) -> bool {
        forall|a: (int, int), b: (int, int)|
            self.is_floor(a.0, a.1) && self.is_floor(b.0, b.1) ==> #[trigger] self.linked(a, b)
    }

    /// Every tile of the rectangle from `(x0, y0)` to `(x1, y1)`, both
    /// included, is passable.
    pub open spec fn passable_within(self, x0: int, y0: int, x1: int, y1: int) -> bool {
        forall|x: int, y: int| x0 <= x <= x1 && y0 <= y <= y1 ==> #[trigger] self.passable((x, y))
    }
}

/// A passable tile is linked to itself.
pub proof fn lemma_linked_self(t: Tiles, a: (int, int))
    requires
        t.passable(a),
    ensures
        t.linked(a, a),
{
    assert(t.joins(seq![a], a, a));
}

/// Two passable neighbours are linked.
pub proof fn lemma_linked_step(t: Tiles, a: (int, int), b: (int, int))
    requires
        t.passable(a),
        t.passable(b),
        adjacent(a, b),
    ensures
        t.linked(a, b),
{
    let path = seq![a, b];
    assert(path[0] == a && path[1] == b);
    assert(t.joins(path, a, b));
}

/// A walk from `a` to `b` and one from `b` to `c` make a walk from `a` to `c`.
pub proof fn lemma_linked_trans(t: Tiles, a: (int, int), b: (int, int), c: (int, int))
    requires
        t.linked(a, b),
        t.linked(b, c),
    ensures
        t.linked(a, c),
{
    let p = choose|p: Seq<(int, int)>| #[trigger] t.joins(p, a, b);
    let q = choose|q: Seq<(int, int)>| #[trigger] t.joins(q, b, c);
    let path = p + q.skip(1);
    assert forall|i: int| 0 <= i < path.len() implies t.passable(#[trigger] path[i]) by {
        if i < p.len() {
            assert(path[i] == p[i]);
        } else {
            assert(path[i] == q[i - p.len() + 1]);
        }
    }
    assert forall|i: int| #![trigger path[i]] 0 <= i < path.len() - 1 implies adjacent(
        path[i],
        path[i + 1],
    ) by {
        if i < p.len() - 1 {
            assert(path[i] == p[i] && path[i + 1] == p[i + 1]);
        } else if i == p.len() - 1 {
            assert(path[i] == p[i]);
            assert(p[i] == q[0]);
            assert(path[i + 1] == q[1]);
        } else {
            let j = i - p.len() + 1;
            assert(path[i] == q[j] && path[i + 1] == q[j + 1]);
        }
    }
    if q.len() == 1 {
        assert(path =~= p);
        assert(b == c);
    } else {
        assert(path.last() == q[q.len() - 1]);
    }
    assert(path[0] == p[0]);
    assert(t.joins(path, a, c));
}

/// A walk can be walked backwards.
pub proof fn lemma_linked_sym(t: Tiles, a: (int, int), b: (int, int))
    requires
        t.linked(a, b),
    ensures
        t.linked(b, a),
{
    let p = choose|p: Seq<(int, int)>| #[trigger] t.joins(p, a, b);
    let n = p.len() as int;
    let path = Seq::new(p.len(), |i: int| p[n - 1 - i]);
    assert forall|i: int| 0 <= i < path.len() implies t.passable(#[trigger] path[i]) by {
        assert(path[i] == p[n - 1 - i]);
    }
    assert forall|i: int| #![trigger path[i]] 0 <= i < path.len() - 1 implies adjacent(
        path[i],
        path[i + 1],
    ) by {
        let j = n - 2 - i;
        assert(path[i] == p[j + 1] && path[i + 1] == p[j]);
        assert(adjacent(p[j], p[j + 1]));
    }
    assert(t.joins(path, b, a));
}

/// A walk stays a walk where every passable tile stays passable.
pub proof fn lemma_linked_kept(t: Tiles, next: Tiles, a: (int, int), b: (int, int))
    requires
        t.linked(a, b),
        forall|p: (int, int)| #[trigger] t.passable(p) ==> next.passable(p),
    ensures
        next.linked(a, b),
{
    let p = choose|p: Seq<(int, int)>| #[trigger] t.joins(p, a, b);
    assert forall|i: int| 0 <= i < p.len() implies next.passable(#[trigger] p[i]) by {
        assert(t.passable(p[i]));
    }
    assert(next.joins(p, a, b));
}

proof fn lemma_row_linked(t: Tiles, y: int, xa: int, xb: int)
    requires
        xa <= xb,
        forall|x: int| xa <= x <= xb ==> #[trigger] t.passable((x, y)),
    ensures
        t.linked((xa, y), (xb, y)),
    decreases xb - xa,
{
    if xa == xb {
        assert(t.passable((xa, y)));
        lemma_linked_self(t, (xa, y));
    } else {
        lemma_row_linked(t, y, xa, xb - 1);
        assert(t.passable((xb - 1, y)));
        assert(t.passable((xb, y)));
        lemma_linked_step(t, (xb - 1, y), (xb, y));
        lemma_linked_trans(t, (xa, y), (xb - 1, y), (xb, y));
    }
}

proof fn lemma_column_linked(t: Tiles, x: int, ya: int, yb: int)
    requires
        ya <= yb,
        forall|y: int| ya <= y <= yb ==> #[trigger] t.passable((x, y)),
    ensures
        t.linked((x, ya), (x, yb)),
    decreases yb - ya,
{
    if ya == yb {
        assert(t.passable((x, ya)));
        lemma_linked_self(t, (x, ya));
    } else {
        lemma_column_linked(t, x, ya, yb - 1);
        assert(t.passable((x, yb - 1)));
        assert(t.passable((x, yb)));
        lemma_linked_step(t, (x, yb - 1), (x, yb));
        lemma_linked_trans(t, (x, ya), (x, yb - 1), (x, yb));
    }
}

/// Within a rectangle of passable tiles there is a walk from every tile to
/// every other.
pub proof fn lemma_rectangle_linked(
    t: Tiles,
    x0: int,
    y0: int,
    x1: int,
    y1: int,
    a: (int, int),
    b: (int, int),
)
    requires
        t.passable_within(x0, y0, x1, y1),
        x0 <= a.0 <= x1 && y0 <= a.1 <= y1,
        x0 <= b.0 <= x1 && y0 <= b.1 <= y1,
    ensures
        t.linked(a, b),
{
    let corner = (x0, y0);
    lemma_corner_linked(t, x0, y0, x1, y1, a);
    lemma_corner_linked(t, x0, y0, x1, y1, b);
    lemma_linked_sym(t, corner, a);
    lemma_linked_trans(t, a, corner, b);
}

proof fn lemma_corner_linked(t: Tiles, x0: int, y0: int, x1: int, y1: int, a: (int, int))
    requires
        t.passable_within(x0, y0, x1, y1),
        x0 <= a.0 <= x1 && y0 <= a.1 <= y1,
    ensures
        t.linked((x0, y0), a),
{
    assert forall|y: int| y0 <= y <= a.1 implies #[trigger] t.passable((x0, y)) by {}
    lemma_column_linked(t, x0, y0, a.1);
    assert forall|x: int| x0 <= x <= a.0 implies #[trigger] t.passable((x, a.1)) by {}
    lemma_row_linked(t, a.1, x0, a.0);
    lemma_linked_trans(t, (x0, y0), (x0, a.1), (a.0, a.1));
}

/// Where a grid grows and gains no floor, its floor stays connected.
pub proof fn lemma_grown_connected(t: Tiles, next: Tiles)
    requires
        t.wf(),
        t.grows_into(next),
        t.floor_connected(),
        forall|x: int, y: int|
            t.contains(x, y) && #[trigger] next.at(x, y) == TileState::Floor ==> t.at(x, y)
                == TileState::Floor,
    ensures
        next.floor_connected(),
{
    assert forall|p: (int, int)| #[trigger] t.passable(p) implies next.passable(p) by {
        assert(t.cell_grows(next, p.0, p.1));
    }
    assert forall|a: (int, int), b: (int, int)|
        next.is_floor(a.0, a.1) && next.is_floor(b.0, b.1) implies #[trigger] next.linked(a, b) by {
        assert(t.linked(a, b));
        lemma_linked_kept(t, next, a, b);
    }
}

/// The floor of the first room is connected.
pub proof fn lemma_seed_connected(width: nat, height: nat, shape: RoomShape, sx: int, sy: int)
    requires
        shape.wf(),
        width <= usize::MAX,
        height <= usize::MAX,
        Assembly::start_fits(width, height, shape.size, sx, sy),
    ensures
        Assembly::seed(width, height, shape, sx, sy).tiles.floor_connected(),
{
    let ox = sx - shape.center().0;
    let oy = sy - shape.center().1;
    let t = Assembly::seed(width, height, shape, sx, sy).tiles;
    assert forall|x: int, y: int| t.contains(x, y) implies (#[trigger] t.at(x, y)
        == TileState::Floor <==> shape.is_floor(x - ox, y - oy)) by {}
    let x0 = ox + 1;
    let y0 = oy + 1;
    let x1 = ox + shape.width - 1;
    let y1 = oy + shape.height - 1;
    assert forall|x: int, y: int| x0 <= x <= x1 && y0 <= y <= y1 implies #[trigger] t.passable(
        (x, y),
    ) by {
        assert(shape.is_floor(x - ox, y - oy));
        assert(t.contains(x, y));
        assert(t.at(x, y) == TileState::Floor);
    }
    assert forall|a: (int, int), b: (int, int)|
        t.is_floor(a.0, a.1) && t.is_floor(b.0, b.1) implies #[trigger] t.linked(a, b) by {
        assert(t.at(a.0, a.1) == TileState::Floor);
        assert(t.at(b.0, b.1) == TileState::Floor);
        lemma_rectangle_linked(t, x0, y0, x1, y1, a, b);
    }
}

/// Attaching a room on an anchored connector keeps the floor connected: the
/// door on the seam has the old floor behind it and the floor of the new
/// room before it.
pub proof fn lemma_attached_connected(a: Assembly, c: Connector, shape: RoomShape)
    requires
        a.wf(),
        shape.wf(),
        a.admits(c, shape),
        a.anchored(c),
        a.tiles.floor_connected(),
    ensures
        a.attached(c, shape).tiles.floor_connected(),
{
    let (ox, oy) = Assembly::offset(c, shape);
    let r = shape.facing(c.direction.spec_opposite());
    let t = a.tiles;
    let m = t.merged(shape.tiles(), ox, oy);
    let t2 = a.attached(c, shape).tiles;
    lemma_attached(a, c, shape);
    lemma_merged(t, shape, ox, oy);
    lemma_connectors(shape);
    lemma_put(m, c.x as int, c.y as int, TileState::Door);
    let seam = (c.x as int, c.y as int);
    let back = ray_step(c.x as int, c.y as int, c.direction, -1);
    let inner = ray_step(c.x as int, c.y as int, c.direction, 1);
    let local = ray_step(r.x as int, r.y as int, r.direction, -1);
    assert(shape.is_floor(local.0, local.1));
    assert(inner == (local.0 + ox, local.1 + oy));
    assert(t.is_floor(back.0, back.1));
    assert(t.cell_grows(t2, back.0, back.1));
    assert(t2.at(inner.0, inner.1) == TileState::Floor);
    assert(t2.passable(seam));
    assert(t2.passable(back));
    assert(t2.passable(inner));
    lemma_linked_step(t2, inner, seam);
    lemma_linked_step(t2, seam, back);
    lemma_linked_trans(t2, inner, seam, back);
    let x0 = ox + 1;
    let y0 = oy + 1;
    let x1 = ox + shape.width - 1;
    let y1 = oy + shape.height - 1;
    assert forall|x: int, y: int| x0 <= x <= x1 && y0 <= y <= y1 implies #[trigger] t2.passable(
        (x, y),
    ) by {
        assert(shape.is_floor(x - ox, y - oy));
        assert(m.at(x, y) == TileState::Floor);
    }
    assert forall|p: (int, int)| #[trigger] t.passable(p) implies t2.passable(p) by {
        assert(t.cell_grows(t2, p.0, p.1));
    }
    assert forall|p: (int, int)| t2.is_floor(p.0, p.1) implies #[trigger] t2.linked(inner, p) by {
        assert(m.at(p.0, p.1) == TileState::Floor);
        if shape.is_floor(p.0 - ox, p.1 - oy) {
            lemma_rectangle_linked(t2, x0, y0, x1, y1, inner, p);
        } else {
            assert(t.at(p.0, p.1) == TileState::Floor);
            assert(t.linked(back, p));
            lemma_linked_kept(t, t2, back, p);
            lemma_linked_trans(t2, inner, back, p);
        }
    }
    assert forall|p: (int, int), q: (int, int)|
        t2.is_floor(p.0, p.1) && t2.is_floor(q.0, q.1) implies #[trigger] t2.linked(p, q) by {
        assert(t2.linked(inner, p));
        assert(t2.linked(inner, q));
        lemma_linked_sym(t2, inner, p);
        lemma_linked_trans(t2, p, inner, q);
    }
}

} // verus!
