//! The tile grid: a rectangle of tile states with bounds-checked access.

use crate::tile::TileState;
use vstd::prelude::*;

verus! {

/// The mathematical content of a grid: `rows[y][x]` is the tile in column
/// `x` of row `y`.
#[verifier::ext_equal]
pub struct Tiles {
    pub width: nat,
    pub height: nat,
    pub rows: Seq<Seq<TileState>>,
}

impl Tiles {
    /// There are `height` rows of `width` tiles each.
    pub open spec fn wf(self) -> bool {
        &&& self.rows.len() == self.height
        &&& forall|y: int| 0 <= y < self.height ==> (#[trigger] self.rows[y]).len() == self.width
    }

    /// The position lies inside the grid.
    pub open spec fn contains(self, x: int, y: int) -> bool {
        0 <= x < self.width && 0 <= y < self.height
    }

    /// The tile at a position inside the grid.
    pub open spec fn at(self, x: int, y: int) -> TileState {
        self.rows[y][x]
    }

    /// Bounds-checked lookup.
    pub open spec fn get(self, x: int, y: int) -> Option<TileState> {
        if self.contains(x, y) {
            Some(self.at(x, y))
        } else {
            None
        }
    }

    /// The grid with the tile at `(x, y)` replaced by `t`.
    pub open spec fn put(self, x: int, y: int, t: TileState) -> Tiles {
        Tiles { rows: self.rows.update(y, self.rows[y].update(x, t)), ..self }
    }

    /// The grid whose tile at `(x, y)` is `f(x, y)`.
    pub open spec fn build(width: nat, height: nat, f: spec_fn(int, int) -> TileState) -> Tiles {
        Tiles {
            width,
            height,
            rows: Seq::new(height, |y: int| Seq::new(width, |x: int| f(x, y))),
        }
    }

    /// The grid of the given size with every tile `Empty`.
    pub open spec fn blank(width: nat, height: nat) -> Tiles {
        Tiles::build(width, height, |x: int, y: int| TileState::Empty)
    }

    /// Both grids have the same width and the same height.
    pub open spec fn same_size(self, other: Tiles) -> bool {
        self.width == other.width && self.height == other.height
    }

    /// No tile is `Empty`.
    pub open spec fn resolved(self) -> bool {
        forall|x: int, y: int| self.contains(x, y) ==> #[trigger] self.at(x, y) != TileState::Empty
    }

    /// Every `Empty` tile turned into `Wall`, the others kept.
    pub open spec fn finalized(self) -> Tiles {
        Tiles::build(
            self.width,
            self.height,
            |x: int, y: int|
                if self.at(x, y) == TileState::Empty {
                    TileState::Wall
                } else {
                    self.at(x, y)
                },
        )
    }
}

/// Two well-formed grids of one size with the same tile everywhere are equal.
pub proof fn lemma_tiles_equal(a: Tiles, b: Tiles)
    requires
        a.wf(),
        b.wf(),
        a.same_size(b),
        forall|x: int, y: int| a.contains(x, y) ==> a.at(x, y) == b.at(x, y),
    ensures
        a == b,
{
    assert forall|y: int| 0 <= y < a.rows.len() implies a.rows[y] == b.rows[y] by {
        assert(a.rows[y].len() == a.width);
        assert(b.rows[y].len() == b.width);
        assert forall|x: int| 0 <= x < a.rows[y].len() implies a.rows[y][x] == b.rows[y][x] by {
            assert(a.contains(x, y));
            assert(a.at(x, y) == b.at(x, y));
        }
        assert(a.rows[y] =~= b.rows[y]);
    }
    assert(a.rows =~= b.rows);
}

/// Writing one tile changes that tile and nothing else.
pub proof fn lemma_put(a: Tiles, x: int, y: int, t: TileState)
    requires
        a.wf(),
        a.contains(x, y),
    ensures
        a.put(x, y, t).wf(),
        a.put(x, y, t).same_size(a),
        a.put(x, y, t).at(x, y) == t,
        forall|x2: int, y2: int|
            a.contains(x2, y2) && !(x2 == x && y2 == y) ==> #[trigger] a.put(x, y, t).at(x2, y2)
                == a.at(x2, y2),
{
    let b = a.put(x, y, t);
    assert(a.rows[y].len() == a.width);
    assert forall|j: int| 0 <= j < b.height implies (#[trigger] b.rows[j]).len() == b.width by {
        assert(a.rows[j].len() == a.width);
    }
}

/// A fixed-size rectangle of tiles.
#[derive(Debug, Clone)]
pub struct TileGrid {
    width: usize,
    height: usize,
    cells: Vec<Vec<TileState>>,
}

impl View for TileGrid {
    type V = Tiles;

    closed spec fn view(&self) -> Tiles {
        Tiles {
            width: self.width as nat,
            height: self.height as nat,
            rows: Seq::new(self.cells@.len(), |y: int| self.cells@[y]@),
        }
    }
}

impl TileGrid {
    /// The grid holds `height` rows of `width` tiles, and both fit a `usize`.
    pub open spec fn wf(&self) -> bool {
        &&& self@.wf()
        &&& self@.width <= usize::MAX
        &&& self@.height <= usize::MAX
    }

    /// A grid of the given size with every tile `Empty`.
    pub fn new(width: usize, height: usize) -> (g: TileGrid)
        ensures
            g.wf(),
            g@ == Tiles::blank(width as nat, height as nat),
    {
        let mut cells: Vec<Vec<TileState>> = Vec::new();
        let mut y: usize = 0;
        while y < height
            invariant
                y <= height,
                cells@.len() == y,
                forall|j: int| 0 <= j < y ==> (#[trigger] cells@[j])@.len() == width,
                forall|j: int, i: int|
                    0 <= j < y && 0 <= i < width ==> (#[trigger] cells@[j]@[i]) == TileState::Empty,
            decreases height - y,
        {
            let mut row: Vec<TileState> = Vec::new();
            let mut x: usize = 0;
            while x < width
                invariant
                    x <= width,
                    row@.len() == x,
                    forall|i: int| 0 <= i < x ==> (#[trigger] row@[i]) == TileState::Empty,
                decreases width - x,
            {
                row.push(TileState::Empty);
                x += 1;
            }
            cells.push(row);
            y += 1;
        }
        let g = TileGrid { width, height, cells };
        proof {
            let b = Tiles::blank(width as nat, height as nat);
            assert(g@.wf());
            lemma_tiles_equal(g@, b);
        }
        g
    }

    /// The number of columns.
    pub fn width(&self) -> (w: usize)
        ensures
            w == self@.width,
    {
        self.width
    }

    /// The number of rows.
    pub fn height(&self) -> (h: usize)
        ensures
            h == self@.height,
    {
        self.height
    }

    /// The tile at `(x, y)`, or `None` outside the grid.
    pub fn get(&self, x: usize, y: usize) -> (t: Option<TileState>)
        requires
            self.wf(),
        ensures
            t == self@.get(x as int, y as int),
    {
        if x < self.width && y < self.height {
            Some(self.cells[y][x])
        } else {
            None
        }
    }

    /// The tile at `(x, y)` of a position inside the grid.
    pub fn tile(&self, x: usize, y: usize) -> (t: TileState)
        requires
            self.wf(),
            self@.contains(x as int, y as int),
        ensures
            t == self@.at(x as int, y as int),
    {
        assert(self@.rows[y as int].len() == self.width);
        self.cells[y][x]
    }

    /// Writes `t` at a position inside the grid.
    pub fn write(&mut self, x: usize, y: usize, t: TileState)
        requires
            old(self).wf(),
            old(self)@.contains(x as int, y as int),
        ensures
            final(self).wf(),
            final(self)@ == old(self)@.put(x as int, y as int, t),
            final(self)@.same_size(old(self)@),
            final(self)@.at(x as int, y as int) == t,
            forall|x2: int, y2: int|
                old(self)@.contains(x2, y2) && !(x2 == x && y2 == y) ==> #[trigger] final(self)@.at(
                    x2,
                    y2,
                ) == old(self)@.at(x2, y2),
    {
        assert(self@.rows[y as int].len() == self.width);
        self.cells[y][x] = t;
        proof {
            let goal = old(self)@.put(x as int, y as int, t);
            lemma_put(old(self)@, x as int, y as int, t);
            assert forall|j: int| 0 <= j < self.height implies (#[trigger] self@.rows[j]).len()
                == self.width by {
                assert(old(self)@.rows[j].len() == self.width);
            }
            lemma_tiles_equal(self@, goal);
        }
    }

    /// Writes `t` at `(x, y)` and reports `true`; outside the grid nothing
    /// changes and the answer is `false`.
    pub fn set(&mut self, x: usize, y: usize, t: TileState) -> (done: bool)
        requires
            old(self).wf(),
        ensures
            final(self).wf(),
            done == old(self)@.contains(x as int, y as int),
            done ==> final(self)@ == old(self)@.put(x as int, y as int, t),
            !done ==> final(self)@ == old(self)@,
    {
        if x < self.width && y < self.height {
            self.write(x, y, t);
            true
        } else {
            false
        }
    }

    /// Turns every tile that is still `Empty` into `Wall`.
    pub fn finalize(&mut self)
        requires
            old(self).wf(),
        ensures
            final(self).wf(),
            final(self)@ == old(self)@.finalized(),
            final(self)@.resolved(),
    {
        let mut y: usize = 0;
        while y < self.height
            invariant
                self.wf(),
                self@.same_size(old(self)@),
                y <= self.height,
                forall|x2: int, y2: int|
                    self@.contains(x2, y2) ==> #[trigger] self@.at(x2, y2) == (if y2 < y {
                        old(self)@.finalized().at(x2, y2)
                    } else {
                        old(self)@.at(x2, y2)
                    }),
            decreases self.height - y,
        {
            let mut x: usize = 0;
            while x < self.width
                invariant
                    self.wf(),
                    self@.same_size(old(self)@),
                    y < self.height,
                    x <= self.width,
                    forall|x2: int, y2: int|
                        self@.contains(x2, y2) ==> #[trigger] self@.at(x2, y2) == (if y2 < y || (y2
                            == y && x2 < x) {
                            old(self)@.finalized().at(x2, y2)
                        } else {
                            old(self)@.at(x2, y2)
                        }),
                decreases self.width - x,
            {
                if self.tile(x, y) == TileState::Empty {
                    self.write(x, y, TileState::Wall);
                }
                x += 1;
            }
            y += 1;
        }
        proof {
            lemma_tiles_equal(self@, old(self)@.finalized());
        }
    }
}

} // verus!
