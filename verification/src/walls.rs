//! Walling in the floor of a grid, and finding the first wall along a ray.

use crate::error::GenError;
use crate::grid::{lemma_tiles_equal, TileGrid, Tiles};
use crate::tile::{Connector, Direction, TileState};
use vstd::prelude::*;

verus! {

/// The position `k` steps from `(x, y)` in direction `dir`.
pub open spec fn ray_step(x: int, y: int, dir: Direction, k: int) -> (int, int) {
    match dir {
        Direction::North => (x, y - k),
        Direction::South => (x, y + k),
        Direction::West => (x - k, y),
        Direction::East => (x + k, y),
    }
}

/// `(ax, ay)` comes before `(bx, by)` when the tiles are read row by row.
pub open spec fn reads_before(ax: int, ay: int, bx: int, by: int) -> bool {
    ay < by || (ay == by && ax < bx)
}

impl Tiles {
    /// The position lies inside the grid on a `Floor` tile.
    pub open spec fn is_floor(self, x: int, y: int) -> bool {
        self.contains(x, y) && self.at(x, y) == TileState::Floor
    }

    /// One of the eight neighbours of `(x, y)` is `Floor`.
    pub open spec fn touches_floor(self, x: int, y: int) -> bool {
        ||| self.is_floor(x - 1, y - 1)
        ||| self.is_floor(x, y - 1)
        ||| self.is_floor(x + 1, y - 1)
        ||| self.is_floor(x - 1, y)
        ||| self.is_floor(x + 1, y)
        ||| self.is_floor(x - 1, y + 1)
        ||| self.is_floor(x, y + 1)
        ||| self.is_floor(x + 1, y + 1)
    }

    /// `(nx, ny)` is `Floor` and comes before `(px, py)`.
    pub open spec fn floor_before(self, nx: int, ny: int, px: int, py: int) -> bool {
        self.is_floor(nx, ny) && reads_before(nx, ny, px, py)
    }

    /// One of the eight neighbours of `(x, y)` is `Floor` and comes before
    /// `(px, py)`.
    pub open spec fn touches_floor_before(self, x: int, y: int, px: int, py: int) -> bool {
        ||| self.floor_before(x - 1, y - 1, px, py)
        ||| self.floor_before(x, y - 1, px, py)
        ||| self.floor_before(x + 1, y - 1, px, py)
        ||| self.floor_before(x - 1, y, px, py)
        ||| self.floor_before(x + 1, y, px, py)
        ||| self.floor_before(x - 1, y + 1, px, py)
        ||| self.floor_before(x, y + 1, px, py)
        ||| self.floor_before(x + 1, y + 1, px, py)
    }

    /// No `Floor` tile lies in the first or last row or column.
    pub open spec fn floor_clear_of_edge(self) -> bool {
        forall|x: int, y: int|
            self.contains(x, y) && #[trigger] self.at(x, y) == TileState::Floor ==> 0 < x
                < self.width - 1 && 0 < y < self.height - 1
    }

    /// Every `Empty` tile with a `Floor` neighbour turned into `Wall`, the
    /// others kept.
    pub open spec fn walled(self) -> Tiles {
        Tiles::build(
            self.width,
            self.height,
            |x: int, y: int|
                if self.at(x, y) == TileState::Empty && self.touches_floor(x, y) {
                    TileState::Wall
                } else {
                    self.at(x, y)
                },
        )
    }

    /// The tile `k` steps from `(x, y)` in direction `dir`, if the grid
    /// reaches that far.
    pub open spec fn ray_tile(self, x: int, y: int, dir: Direction, k: int) -> Option<TileState> {
        self.get(ray_step(x, y, dir, k).0, ray_step(x, y, dir, k).1)
    }

    /// The tile `k` steps along the ray is `Wall`, and no nearer one is.
    pub open spec fn first_wall_at(self, x: int, y: int, dir: Direction, k: int) -> bool {
        &&& k >= 1
        &&& self.ray_tile(x, y, dir, k) == Some(TileState::Wall)
        &&& forall|j: int|
            1 <= j < k ==> #[trigger] self.ray_tile(x, y, dir, j) != Some(TileState::Wall)
    }

    /// No tile along the ray is `Wall`.
    pub open spec fn no_wall_on_ray(self, x: int, y: int, dir: Direction) -> bool {
        forall|k: int| k >= 1 ==> #[trigger] self.ray_tile(x, y, dir, k) != Some(TileState::Wall)
    }

    /// The ray meets a wall.
    pub open spec fn wall_on_ray(self, x: int, y: int, dir: Direction) -> bool {
        exists|k: int| self.first_wall_at(x, y, dir, k)
    }

    /// What a ray cast from `(x, y)` in direction `dir` hits: the first
    /// `Wall` tile on it, as a connector that faces `dir`.
    pub open spec fn ray_hit(self, x: int, y: int, dir: Direction) -> Option<Connector> {
        if self.wall_on_ray(x, y, dir) {
            let k = choose|k: int| self.first_wall_at(x, y, dir, k);
            Some(
                Connector {
                    x: ray_step(x, y, dir, k).0 as usize,
                    y: ray_step(x, y, dir, k).1 as usize,
                    direction: dir,
                },
            )
        } else {
            None
        }
    }

    /// The connectors that the four rays from `(x, y)` hit, in the order
    /// north, south, west, east; `None` if one of them meets no wall.
    pub open spec fn four_hits(self, x: int, y: int) -> Option<Seq<Connector>> {
        match (
            self.ray_hit(x, y, Direction::North),
            self.ray_hit(x, y, Direction::South),
            self.ray_hit(x, y, Direction::West),
            self.ray_hit(x, y, Direction::East),
        ) {
            (Some(n), Some(s), Some(w), Some(e)) => Some(seq![n, s, w, e]),
            _ => None,
        }
    }
}

/// A ray has one first wall at most.
pub proof fn lemma_first_wall_unique(t: Tiles, x: int, y: int, dir: Direction, k1: int, k2: int)
    requires
        t.first_wall_at(x, y, dir, k1),
        t.first_wall_at(x, y, dir, k2),
    ensures
        k1 == k2,
{
    if k1 < k2 {
        assert(t.ray_tile(x, y, dir, k1) != Some(TileState::Wall));
    } else if k2 < k1 {
        assert(t.ray_tile(x, y, dir, k2) != Some(TileState::Wall));
    }
}

impl TileGrid {
    /// Whether no `Floor` tile lies on the edge of the grid.
    pub fn floor_is_clear_of_edge(&self) -> (ok: bool)
        requires
            self.wf(),
        ensures
            ok == self@.floor_clear_of_edge(),
    {
        let w = self.width();
        let h = self.height();
        let mut y: usize = 0;
        while y < h
            invariant
                self.wf(),
                w == self@.width,
                h == self@.height,
                y <= h,
                forall|x2: int, y2: int|
                    self@.contains(x2, y2) && y2 < y && #[trigger] self@.at(x2, y2)
                        == TileState::Floor ==> 0 < x2 < w - 1 && 0 < y2 < h - 1,
            decreases h - y,
        {
            let mut x: usize = 0;
            while x < w
                invariant
                    self.wf(),
                    w == self@.width,
                    h == self@.height,
                    y < h,
                    x <= w,
                    forall|x2: int, y2: int|
                        self@.contains(x2, y2) && reads_before(x2, y2, x as int, y as int)
                            && #[trigger] self@.at(x2, y2) == TileState::Floor ==> 0 < x2 < w - 1
                            && 0 < y2 < h - 1,
                decreases w - x,
            {
                if self.tile(x, y) == TileState::Floor && (x == 0 || y == 0 || x == w - 1 || y == h
                    - 1) {
                    return false;
                }
                x += 1;
            }
            y += 1;
        }
        true
    }

    /// Turns the `Empty` tiles among `(x, y)` and its eight neighbours into
    /// `Wall`.
    fn wall_around(&mut self, x: usize, y: usize)
        requires
            old(self).wf(),
            0 < x < old(self)@.width - 1,
            0 < y < old(self)@.height - 1,
        ensures
            final(self).wf(),
            final(self)@.same_size(old(self)@),
            forall|x2: int, y2: int|
                old(self)@.contains(x2, y2) ==> #[trigger] final(self)@.at(x2, y2) == (if x - 1
                    <= x2 <= x + 1 && y - 1 <= y2 <= y + 1 && old(self)@.at(x2, y2)
                    == TileState::Empty {
                    TileState::Wall
                } else {
                    old(self)@.at(x2, y2)
                }),
    {
        let mut dy: usize = 0;
        while dy < 3
            invariant
                self.wf(),
                self@.same_size(old(self)@),
                0 < x < self@.width - 1,
                0 < y < self@.height - 1,
                dy <= 3,
                forall|x2: int, y2: int|
                    self@.contains(x2, y2) ==> #[trigger] self@.at(x2, y2) == (if x - 1 <= x2 <= x
                        + 1 && y - 1 <= y2 < y - 1 + dy && old(self)@.at(x2, y2)
                        == TileState::Empty {
                        TileState::Wall
                    } else {
                        old(self)@.at(x2, y2)
                    }),
            decreases 3 - dy,
        {
            let mut dx: usize = 0;
            while dx < 3
                invariant
                    self.wf(),
                    self@.same_size(old(self)@),
                    0 < x < self@.width - 1,
                    0 < y < self@.height - 1,
                    dy < 3,
                    dx <= 3,
                    forall|x2: int, y2: int|
                        self@.contains(x2, y2) ==> #[trigger] self@.at(x2, y2) == (if x - 1 <= x2
                            <= x + 1 && y - 1 <= y2 <= y + 1 && reads_before(
                            x2,
                            y2,
                            x - 1 + dx,
                            y - 1 + dy,
                        ) && old(self)@.at(x2, y2) == TileState::Empty {
                            TileState::Wall
                        } else {
                            old(self)@.at(x2, y2)
                        }),
                decreases 3 - dx,
            {
                let px = x - 1 + dx;
                let py = y - 1 + dy;
                if self.tile(px, py) == TileState::Empty {
                    self.write(px, py, TileState::Wall);
                }
                dx += 1;
            }
            dy += 1;
        }
    }

    /// Walls in the floor: every `Empty` tile that touches a `Floor` tile,
    /// diagonals included, becomes `Wall`. A `Floor` tile on the edge of the
    /// grid has neighbours outside it, so that the floor cannot be closed:
    /// the grid is then left as it was and the defect reported.
    pub fn wall_in_floor(&mut self) -> (r: Result<(), GenError>)
        requires
            old(self).wf(),
        ensures
            final(self).wf(),
            old(self)@.floor_clear_of_edge() ==> r == Ok::<(), GenError>(()) && final(self)@
                == old(self)@.walled(),
            !old(self)@.floor_clear_of_edge() ==> r == Err::<(), GenError>(GenError::FloorOnEdge)
                && final(self)@ == old(self)@,
    {
        if !self.floor_is_clear_of_edge() {
            return Err(GenError::FloorOnEdge);
        }
        let w = self.width();
        let h = self.height();
        let mut y: usize = 0;
        while y < h
            invariant
                self.wf(),
                self@.same_size(old(self)@),
                old(self)@.floor_clear_of_edge(),
                w == self@.width,
                h == self@.height,
                y <= h,
                forall|x2: int, y2: int|
                    self@.contains(x2, y2) ==> #[trigger] self@.at(x2, y2) == (if old(self)@.at(
                        x2,
                        y2,
                    ) == TileState::Empty && old(self)@.touches_floor_before(x2, y2, 0, y as int) {
                        TileState::Wall
                    } else {
                        old(self)@.at(x2, y2)
                    }),
            decreases h - y,
        {
            let mut x: usize = 0;
            while x < w
                invariant
                    self.wf(),
                    self@.same_size(old(self)@),
                    old(self)@.floor_clear_of_edge(),
                    w == self@.width,
                    h == self@.height,
                    y < h,
                    x <= w,
                    forall|x2: int, y2: int|
                        self@.contains(x2, y2) ==> #[trigger] self@.at(x2, y2) == (if old(self)@.at(
                            x2,
                            y2,
                        ) == TileState::Empty && old(self)@.touches_floor_before(
                            x2,
                            y2,
                            x as int,
                            y as int,
                        ) {
                            TileState::Wall
                        } else {
                            old(self)@.at(x2, y2)
                        }),
                decreases w - x,
            {
                if self.tile(x, y) == TileState::Floor {
                    assert(old(self)@.at(x as int, y as int) == TileState::Floor);
                    self.wall_around(x, y);
                }
                x += 1;
            }
            y += 1;
        }
        proof {
            lemma_tiles_equal(self@, old(self)@.walled());
        }
        Ok(())
    }

    /// Casts a ray from `(x, y)` in direction `dir`, the start not included,
    /// and returns the first `Wall` tile on it as a connector that faces
    /// `dir`; `None` where the ray leaves the grid without meeting one.
    pub fn first_wall(&self, x: usize, y: usize, dir: Direction) -> (r: Option<Connector>)
        requires
            self.wf(),
        ensures
            r == self@.ray_hit(x as int, y as int, dir),
            r is None <==> self@.no_wall_on_ray(x as int, y as int, dir),
    {
        let w = self.width();
        let h = self.height();
        let reach: usize = match dir {
            Direction::North => if x < w {
                y
            } else {
                0
            },
            Direction::South => if x < w && y < h {
                h - 1 - y
            } else {
                0
            },
            Direction::West => if y < h {
                x
            } else {
                0
            },
            Direction::East => if y < h && x < w {
                w - 1 - x
            } else {
                0
            },
        };
        assert forall|j: int| j > reach implies #[trigger] self@.ray_tile(
            x as int,
            y as int,
            dir,
            j,
        ) is None by {}
        let mut k: usize = 0;
        while k < reach
            invariant
                self.wf(),
                w == self@.width,
                h == self@.height,
                k <= reach,
                dir == Direction::North ==> reach <= y,
                dir == Direction::West ==> reach <= x,
                dir == Direction::South ==> reach == 0 || reach + y < h,
                dir == Direction::East ==> reach == 0 || reach + x < w,
                forall|j: int|
                    j > reach ==> #[trigger] self@.ray_tile(x as int, y as int, dir, j) is None,
                forall|j: int|
                    1 <= j <= k ==> #[trigger] self@.ray_tile(x as int, y as int, dir, j) != Some(
                        TileState::Wall,
                    ),
            decreases reach - k,
        {
            k += 1;
            let (px, py) = match dir {
                Direction::North => (x, y - k),
                Direction::South => (x, y + k),
                Direction::West => (x - k, y),
                Direction::East => (x + k, y),
            };
            assert((px as int, py as int) == ray_step(x as int, y as int, dir, k as int));
            match self.get(px, py) {
                Some(TileState::Wall) => {
                    proof {
                        let t = self@;
                        assert(t.first_wall_at(x as int, y as int, dir, k as int));
                        let k2 = choose|k2: int| t.first_wall_at(x as int, y as int, dir, k2);
                        lemma_first_wall_unique(t, x as int, y as int, dir, k as int, k2);
                        assert(t.ray_tile(x as int, y as int, dir, k as int) == Some(
                            TileState::Wall,
                        ));
                    }
                    return Some(Connector { x: px, y: py, direction: dir });
                },
                _ => {},
            }
        }
        assert forall|j: int| j >= 1 implies #[trigger] self@.ray_tile(x as int, y as int, dir, j)
            != Some(TileState::Wall) by {
            if j > reach {
                assert(self@.ray_tile(x as int, y as int, dir, j) is None);
            }
        }
        None
    }

    /// Casts a ray from `(x, y)` in each of the four directions and adds the
    /// four walls hit to `connectors`, in the order north, south, west, east.
    /// If one of the rays meets no wall, nothing is added and the defect is
    /// reported.
    pub fn add_four_connectors(&self, x: usize, y: usize, connectors: &mut Vec<Connector>) -> (r:
        Result<(), GenError>)
        requires
            self.wf(),
        ensures
            match self@.four_hits(x as int, y as int) {
                Some(hits) => r == Ok::<(), GenError>(()) && final(connectors)@ == old(connectors)@
                    + hits,
                None => r == Err::<(), GenError>(GenError::NoWallOnRay) && final(connectors)@
                    == old(connectors)@,
            },
    {
        let north = self.first_wall(x, y, Direction::North);
        let south = self.first_wall(x, y, Direction::South);
        let west = self.first_wall(x, y, Direction::West);
        let east = self.first_wall(x, y, Direction::East);
        match (north, south, west, east) {
            (Some(n), Some(s), Some(w), Some(e)) => {
                connectors.push(n);
                connectors.push(s);
                connectors.push(w);
                connectors.push(e);
                assert(connectors@ =~= old(connectors)@ + seq![n, s, w, e]);
                Ok(())
            },
            _ => Err(GenError::NoWallOnRay),
        }
    }
}

} // verus!
