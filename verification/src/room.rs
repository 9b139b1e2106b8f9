//! One room: a floor rectangle in a square grid of its own, walled in, with
//! one connector on each of its four sides.

use crate::error::GenError;
use crate::grid::{lemma_tiles_equal, TileGrid, Tiles};
use crate::source::draw;
use crate::tile::{Connector, Direction, TileState};
use crate::walls::ray_step;
use rand::rngs::StdRng;
use vstd::prelude::*;

verus! {

/// The smallest number a room dimension can be.
pub const MIN_ROOM_DIMENSION: usize = 4;

/// What determines a room: the side of its square grid, and the column and
/// row of its far walls. The near walls are column 0 and row 0, and the floor
/// lies strictly between the walls.
pub struct RoomShape {
    pub size: nat,
    pub width: nat,
    pub height: nat,
}

impl RoomShape {
    /// Both dimensions lie between `MIN_ROOM_DIMENSION` and `size`, the latter
    /// not included, so that the far walls still stand inside the grid.
    pub open spec fn wf(self) -> bool {
        &&& MIN_ROOM_DIMENSION <= self.width < self.size
        &&& MIN_ROOM_DIMENSION <= self.height < self.size
        &&& self.size <= usize::MAX
    }

    /// Strictly between the walls.
    pub open spec fn is_floor(self, x: int, y: int) -> bool {
        1 <= x < self.width && 1 <= y < self.height
    }

    /// On the wall ring or the floor.
    pub open spec fn is_covered(self, x: int, y: int) -> bool {
        0 <= x <= self.width && 0 <= y <= self.height
    }

    /// The floor alone, before it is walled in.
    pub open spec fn floor_tiles(self) -> Tiles {
        Tiles::build(
            self.size,
            self.size,
            |x: int, y: int|
                if self.is_floor(x, y) {
                    TileState::Floor
                } else {
                    TileState::Empty
                },
        )
    }

    /// The room's grid: the floor, the wall ring around it, and `Empty`
    /// beyond.
    pub open spec fn tiles(self) -> Tiles {
        Tiles::build(
            self.size,
            self.size,
            |x: int, y: int|
                if self.is_floor(x, y) {
                    TileState::Floor
                } else if self.is_covered(x, y) {
                    TileState::Wall
                } else {
                    TileState::Empty
                },
        )
    }

    /// The tile in the middle of the floor.
    pub open spec fn center(self) -> (int, int) {
        (self.width as int / 2, self.height as int / 2)
    }

    /// The connector on the side that faces `dir`: where the ray from the
    /// centre meets the wall.
    pub open spec fn facing(self, dir: Direction) -> Connector {
        match dir {
            Direction::North => Connector {
                x: (self.width / 2) as usize,
                y: 0,
                direction: Direction::North,
            },
            Direction::South => Connector {
                x: (self.width / 2) as usize,
                y: self.height as usize,
                direction: Direction::South,
            },
            Direction::West => Connector {
                x: 0,
                y: (self.height / 2) as usize,
                direction: Direction::West,
            },
            Direction::East => Connector {
                x: self.width as usize,
                y: (self.height / 2) as usize,
                direction: Direction::East,
            },
        }
    }

    /// The four connectors, in the order north, south, west, east.
    pub open spec fn connectors(self) -> Seq<Connector> {
        seq![
            self.facing(Direction::North),
            self.facing(Direction::South),
            self.facing(Direction::West),
            self.facing(Direction::East),
        ]
    }

    /// How far the wall is from the centre in direction `dir`.
    pub open spec fn wall_distance(self, dir: Direction) -> int {
        match dir {
            Direction::North => self.height as int / 2,
            Direction::South => self.height - self.height as int / 2,
            Direction::West => self.width as int / 2,
            Direction::East => self.width - self.width as int / 2,
        }
    }
}

/// The floor of a room never touches the edge of the room's grid.
pub proof fn lemma_floor_clear_of_edge(shape: RoomShape)
    requires
        shape.wf(),
    ensures
        shape.tiles().floor_clear_of_edge(),
        shape.floor_tiles().floor_clear_of_edge(),
{
}

/// There are four connectors, one facing each direction, each on a `Wall`
/// tile of the room.
pub proof fn lemma_connectors(shape: RoomShape)
    requires
        shape.wf(),
    ensures
        shape.connectors().len() == 4,
        forall|j: int|
            0 <= j < 4 ==> {
                let c = #[trigger] shape.connectors()[j];
                &&& c == shape.facing(c.direction)
                &&& c.x <= shape.width
                &&& c.y <= shape.height
                &&& shape.tiles().contains(c.x as int, c.y as int)
                &&& shape.tiles().at(c.x as int, c.y as int) == TileState::Wall
                &&& shape.is_floor(
                    ray_step(c.x as int, c.y as int, c.direction, -1).0,
                    ray_step(c.x as int, c.y as int, c.direction, -1).1,
                )
            },
        forall|dir: Direction|
            {
                let c = #[trigger] shape.facing(dir);
                &&& c.direction == dir
                &&& c.x <= shape.width
                &&& c.y <= shape.height
                &&& shape.tiles().contains(c.x as int, c.y as int)
                &&& shape.tiles().at(c.x as int, c.y as int) == TileState::Wall
                &&& shape.is_floor(
                    ray_step(c.x as int, c.y as int, dir, -1).0,
                    ray_step(c.x as int, c.y as int, dir, -1).1,
                )
            },
        forall|x: int, y: int|
            shape.tiles().contains(x, y) ==> #[trigger] shape.tiles().at(x, y) != TileState::Door,
{
    let conns = shape.connectors();
    assert(conns[0] == shape.facing(Direction::North));
    assert(conns[1] == shape.facing(Direction::South));
    assert(conns[2] == shape.facing(Direction::West));
    assert(conns[3] == shape.facing(Direction::East));
}

/// Walling in the bare floor gives the room's grid.
pub proof fn lemma_walled_floor(shape: RoomShape)
    requires
        shape.wf(),
    ensures
        shape.floor_tiles().walled() == shape.tiles(),
{
    let f = shape.floor_tiles();
    let goal = shape.tiles();
    assert forall|x: int, y: int| goal.contains(x, y) implies f.walled().at(x, y) == goal.at(
        x,
        y,
    ) by {
        if !shape.is_floor(x, y) {
            if shape.is_covered(x, y) {
                let nx = if x == 0 {
                    1
                } else if x == shape.width {
                    x - 1
                } else {
                    x
                };
                let ny = if y == 0 {
                    1
                } else if y == shape.height {
                    y - 1
                } else {
                    y
                };
                assert(f.is_floor(nx, ny));
                assert(f.touches_floor(x, y));
            } else {
                assert(!f.touches_floor(x, y));
            }
        }
    }
    lemma_tiles_equal(f.walled(), goal);
}

/// From the centre of a room, the first wall in direction `dir` is the
/// connector that faces `dir`, and no other tile is.
pub proof fn lemma_room_ray(shape: RoomShape, dir: Direction)
    requires
        shape.wf(),
    ensures
        shape.tiles().first_wall_at(
            shape.center().0,
            shape.center().1,
            dir,
            shape.wall_distance(dir),
        ),
        ray_step(shape.center().0, shape.center().1, dir, shape.wall_distance(dir)) == (
            shape.facing(dir).x as int,
            shape.facing(dir).y as int,
        ),
        forall|k: int|
            #![trigger shape.tiles().first_wall_at(shape.center().0, shape.center().1, dir, k)]
            shape.tiles().first_wall_at(shape.center().0, shape.center().1, dir, k) ==> k
                == shape.wall_distance(dir),
{
    let t = shape.tiles();
    let (cx, cy) = shape.center();
    let d = shape.wall_distance(dir);
    assert forall|j: int| 1 <= j < d implies #[trigger] t.ray_tile(cx, cy, dir, j) != Some(
        TileState::Wall,
    ) by {
        let p = ray_step(cx, cy, dir, j);
        assert(shape.is_floor(p.0, p.1));
    }
    let q = ray_step(cx, cy, dir, d);
    assert(!shape.is_floor(q.0, q.1) && shape.is_covered(q.0, q.1));
    assert(t.ray_tile(cx, cy, dir, d) == Some(TileState::Wall));
    assert forall|k: int|
        #![trigger t.first_wall_at(cx, cy, dir, k)]
        t.first_wall_at(cx, cy, dir, k) implies k == d by {
        if k < d {
            let p = ray_step(cx, cy, dir, k);
            assert(shape.is_floor(p.0, p.1));
        } else if k > d {
            assert(t.ray_tile(cx, cy, dir, d) != Some(TileState::Wall));
        }
    }
}

/// A ray cast from the centre of a room hits the connector that faces the
/// ray's direction.
pub proof fn lemma_ray_hit(shape: RoomShape, dir: Direction)
    requires
        shape.wf(),
    ensures
        shape.tiles().ray_hit(shape.center().0, shape.center().1, dir) == Some(shape.facing(dir)),
{
    lemma_room_ray(shape, dir);
    let t = shape.tiles();
    let (cx, cy) = shape.center();
    assert(t.first_wall_at(cx, cy, dir, shape.wall_distance(dir)));
    let k = choose|k: int| t.first_wall_at(cx, cy, dir, k);
    assert(k == shape.wall_distance(dir));
}

/// A generated room.
#[derive(Debug, Clone)]
pub struct Room {
    layout: TileGrid,
    connectors: Vec<Connector>,
    center_x: usize,
    center_y: usize,
    width: usize,
    height: usize,
}

impl View for Room {
    type V = RoomShape;

    closed spec fn view(&self) -> RoomShape {
        RoomShape {
            size: self.layout@.width,
            width: self.width as nat,
            height: self.height as nat,
        }
    }
}

impl Room {
    /// The room holds the grid, the connectors and the centre of its shape.
    pub closed spec fn holds_shape(&self) -> bool {
        &&& self.layout.wf()
        &&& self.layout@ == self@.tiles()
        &&& self.connectors@ == self@.connectors()
        &&& (self.center_x as int, self.center_y as int) == self@.center()
    }

    /// The shape is well-formed, and the room holds what the shape says.
    pub open spec fn wf(&self) -> bool {
        self@.wf() && self.holds_shape()
    }

    /// The side of the room's square grid.
    pub fn size(&self) -> (n: usize)
        requires
            self.wf(),
        ensures
            n == self@.size,
    {
        self.layout.width()
    }

    /// The column of the far wall.
    pub fn width(&self) -> (n: usize)
        ensures
            n == self@.width,
    {
        self.width
    }

    /// The row of the far wall.
    pub fn height(&self) -> (n: usize)
        ensures
            n == self@.height,
    {
        self.height
    }

    /// The tile in the middle of the floor, from which the connectors were
    /// found.
    pub fn center(&self) -> (c: (usize, usize))
        requires
            self.wf(),
        ensures
            (c.0 as int, c.1 as int) == self@.center(),
    {
        (self.center_x, self.center_y)
    }

    /// The room's own grid.
    pub fn layout(&self) -> (g: &TileGrid)
        requires
            self.wf(),
        ensures
            g.wf(),
            g@ == self@.tiles(),
    {
        &self.layout
    }

    /// The four connectors, in the order north, south, west, east, in the
    /// coordinates of the room's own grid.
    pub fn connectors(&self) -> (v: &Vec<Connector>)
        requires
            self.wf(),
        ensures
            v@ == self@.connectors(),
    {
        &self.connectors
    }

    /// Gives up the room for its grid and its connectors.
    pub fn into_parts(self) -> (parts: (TileGrid, Vec<Connector>))
        requires
            self.wf(),
        ensures
            parts.0.wf(),
            parts.0@ == self@.tiles(),
            parts.1@ == self@.connectors(),
    {
        (self.layout, self.connectors)
    }

    /// Both dimensions lie between `MIN_ROOM_DIMENSION` and `size`, the latter
    /// not included.
    pub open spec fn dimensions_fit(size: usize, width: usize, height: usize) -> bool {
        MIN_ROOM_DIMENSION <= width < size && MIN_ROOM_DIMENSION <= height < size
    }

    /// The room of side `size` whose far walls stand in column `width` and
    /// row `height`; refused unless both are at least `MIN_ROOM_DIMENSION` and
    /// less than `size`.
    pub fn with_dimensions(size: usize, width: usize, height: usize) -> (r: Result<Room, GenError>)
        ensures
            Room::dimensions_fit(size, width, height) ==> r is Ok,
            !Room::dimensions_fit(size, width, height) ==> r == Err::<Room, GenError>(
                GenError::RoomDimension,
            ),
            r matches Ok(room) ==> room.wf() && room@ == (RoomShape {
                size: size as nat,
                width: width as nat,
                height: height as nat,
            }) && room@.tiles().floor_clear_of_edge(),
    {
        if width < MIN_ROOM_DIMENSION || width >= size || height < MIN_ROOM_DIMENSION || height
            >= size {
            return Err(GenError::RoomDimension);
        }
        let ghost shape = RoomShape {
            size: size as nat,
            width: width as nat,
            height: height as nat,
        };
        let mut layout = TileGrid::new(size, size);
        let mut y: usize = 1;
        while y < height
            invariant
                layout.wf(),
                layout@.width == size,
                layout@.height == size,
                MIN_ROOM_DIMENSION <= width < size,
                MIN_ROOM_DIMENSION <= height < size,
                1 <= y <= height,
                forall|x2: int, y2: int|
                    layout@.contains(x2, y2) ==> #[trigger] layout@.at(x2, y2) == (if 1 <= x2
                        < width && 1 <= y2 < y {
                        TileState::Floor
                    } else {
                        TileState::Empty
                    }),
            decreases height - y,
        {
            let mut x: usize = 1;
            while x < width
                invariant
                    layout.wf(),
                    layout@.width == size,
                    layout@.height == size,
                    MIN_ROOM_DIMENSION <= width < size,
                    MIN_ROOM_DIMENSION <= height < size,
                    1 <= y < height,
                    1 <= x <= width,
                    forall|x2: int, y2: int|
                        layout@.contains(x2, y2) ==> #[trigger] layout@.at(x2, y2) == (if (1 <= x2
                            < width && 1 <= y2 < y) || (y2 == y && 1 <= x2 < x) {
                            TileState::Floor
                        } else {
                            TileState::Empty
                        }),
                decreases width - x,
            {
                layout.write(x, y, TileState::Floor);
                x += 1;
            }
            y += 1;
        }
        proof {
            lemma_tiles_equal(layout@, shape.floor_tiles());
            lemma_floor_clear_of_edge(shape);
            lemma_walled_floor(shape);
        }
        match layout.wall_in_floor() {
            Ok(()) => {},
            Err(e) => {
                return Err(e);
            },
        }
        let center_x = width / 2;
        let center_y = height / 2;
        let mut connectors: Vec<Connector> = Vec::new();
        proof {
            lemma_ray_hit(shape, Direction::North);
            lemma_ray_hit(shape, Direction::South);
            lemma_ray_hit(shape, Direction::West);
            lemma_ray_hit(shape, Direction::East);
        }
        match layout.add_four_connectors(center_x, center_y, &mut connectors) {
            Ok(()) => {},
            Err(e) => {
                return Err(e);
            },
        }
        let room = Room { layout, connectors, center_x, center_y, width, height };
        assert(room.connectors@ =~= shape.connectors());
        Ok(room)
    }

    /// A room of side `max_room_dimension` with its width and then its height
    /// drawn from `rng`, each at least `MIN_ROOM_DIMENSION` and less than
    /// `max_room_dimension`; refused where no such number exists.
    pub fn new(max_room_dimension: usize, rng: &mut StdRng) -> (r: Result<Room, GenError>)
        ensures
            max_room_dimension > MIN_ROOM_DIMENSION ==> r is Ok,
            max_room_dimension <= MIN_ROOM_DIMENSION ==> r == Err::<Room, GenError>(
                GenError::RoomDimension,
            ),
            r matches Ok(room) ==> room.wf() && room@.size == max_room_dimension
                && room@.tiles().floor_clear_of_edge(),
    {
        if max_room_dimension <= MIN_ROOM_DIMENSION {
            return Err(GenError::RoomDimension);
        }
        let width = draw(rng, MIN_ROOM_DIMENSION, max_room_dimension);
        let height = draw(rng, MIN_ROOM_DIMENSION, max_room_dimension);
        Room::with_dimensions(max_room_dimension, width, height)
    }
}

} // verus!
