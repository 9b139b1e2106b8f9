use dungeon_floor::assembly::RETRY_BUDGET;
use dungeon_floor::error::GenError;
use dungeon_floor::map::FloorMap;
use dungeon_floor::room::Room;
use dungeon_floor::tile::{Connector, Direction, TileState};
use rand::rngs::StdRng;
use rand::{Rng, RngCore, SeedableRng};

fn conn(x: usize, y: usize, direction: Direction) -> Connector {
    Connector { x, y, direction }
}

fn room(size: usize, w: usize, h: usize) -> Room {
    Room::with_dimensions(size, w, h).unwrap()
}

fn count(map: &FloorMap, t: TileState) -> usize {
    let mut n = 0;
    for y in 0..map.height() {
        for x in 0..map.width() {
            if map.tile(x, y) == Some(t) {
                n += 1;
            }
        }
    }
    n
}

fn replayed(width: usize, height: usize, max: usize, start: (usize, usize), seed: u64) -> FloorMap {
    let mut rng = StdRng::seed_from_u64(seed);
    let w = rng.gen_range(4..max);
    let h = rng.gen_range(4..max);
    let mut map = FloorMap::seeded(width, height, room(max, w, h), start).unwrap();
    let mut tries = 0;
    while !map.available().is_empty() {
        let w = rng.gen_range(4..max);
        let h = rng.gen_range(4..max);
        tries = map.offer(tries, room(max, w, h));
    }
    map.reconcile();
    map.finalize();
    map
}

#[test]
fn new_floor_is_empty_and_has_no_connectors() {
    let map = FloorMap::new(7, 5);
    assert_eq!(map.width(), 7);
    assert_eq!(map.height(), 5);
    assert_eq!(count(&map, TileState::Empty), 35);
    assert!(map.available().is_empty());
    assert!(map.blocked().is_empty());
    assert!(map.joined().is_empty());
    assert_eq!(map.tile(7, 0), None);
    assert_eq!(map.tile(0, 5), None);
    assert_eq!(map.grid().render(), "???????\n".repeat(5));
}

#[test]
fn seed_room_is_centred_on_the_start() {
    let map = FloorMap::seeded(40, 40, room(10, 4, 4), (20, 20)).unwrap();
    assert_eq!(
        map.available(),
        &vec![
            conn(22, 20, Direction::East),
            conn(18, 20, Direction::West),
            conn(20, 22, Direction::South),
            conn(20, 18, Direction::North),
        ]
    );
    assert!(map.blocked().is_empty());
    assert!(map.joined().is_empty());
    for y in 0..40 {
        for x in 0..40 {
            let expected = if (19..=21).contains(&x) && (19..=21).contains(&y) {
                TileState::Floor
            } else if (18..=22).contains(&x) && (18..=22).contains(&y) {
                TileState::Wall
            } else {
                TileState::Empty
            };
            assert_eq!(map.tile(x, y), Some(expected));
        }
    }
}

#[test]
fn seed_room_of_an_uneven_room() {
    let map = FloorMap::seeded(40, 30, room(10, 9, 6), (20, 10)).unwrap();
    assert_eq!(
        map.available(),
        &vec![
            conn(25, 10, Direction::East),
            conn(16, 10, Direction::West),
            conn(20, 13, Direction::South),
            conn(20, 7, Direction::North),
        ]
    );
    assert_eq!(map.tile(20, 10), Some(TileState::Floor));
    assert_eq!(count(&map, TileState::Floor), 8 * 5);
    assert_eq!(count(&map, TileState::Wall), 10 * 7 - 8 * 5);
    assert_eq!(count(&map, TileState::Door), 0);
}

#[test]
fn seed_room_seeds_four_connectors_around_the_start() {
    for seed in 0..30u64 {
        let mut rng = StdRng::seed_from_u64(seed);
        let first = Room::new(10, &mut rng).unwrap();
        let map = FloorMap::seeded(40, 40, first, (20, 20)).unwrap();
        let conns = map.available();
        assert_eq!(conns.len(), 4);
        assert_eq!(map.tile(20, 20), Some(TileState::Floor));
        for c in conns.iter() {
            assert_eq!(map.tile(c.x, c.y), Some(TileState::Wall));
            match c.direction {
                Direction::North => assert!(c.x == 20 && 15 <= c.y && c.y < 20),
                Direction::South => assert!(c.x == 20 && 20 < c.y && c.y <= 25),
                Direction::West => assert!(c.y == 20 && 15 <= c.x && c.x < 20),
                Direction::East => assert!(c.y == 20 && 20 < c.x && c.x <= 25),
            }
        }
        for d in [Direction::North, Direction::South, Direction::East, Direction::West] {
            assert_eq!(conns.iter().filter(|c| c.direction == d).count(), 1);
        }
    }
}

#[test]
fn start_too_close_to_an_edge_is_refused() {
    for start in [(4, 20), (20, 4), (35, 20), (20, 35), (0, 0), (40, 40), (usize::MAX, 20)] {
        assert_eq!(
            FloorMap::seeded(40, 40, room(10, 4, 4), start).err(),
            Some(GenError::StartOutOfBounds)
        );
    }
    for start in [(5, 5), (34, 34), (5, 34), (34, 5)] {
        assert!(FloorMap::seeded(40, 40, room(10, 9, 9), start).is_ok());
        assert!(FloorMap::seeded(40, 40, room(10, 4, 4), start).is_ok());
    }
    assert_eq!(
        FloorMap::seeded(10, 10, room(10, 4, 4), (5, 5)).err(),
        Some(GenError::StartOutOfBounds)
    );
    assert!(FloorMap::seeded(11, 11, room(10, 4, 4), (5, 5)).is_ok());
    assert!(FloorMap::seeded(11, 11, room(11, 10, 10), (5, 5)).is_ok());
    assert_eq!(
        FloorMap::seeded(0, 0, room(10, 4, 4), (0, 0)).err(),
        Some(GenError::StartOutOfBounds)
    );
}

#[test]
fn largest_seed_room_at_the_smallest_margin_stays_inside() {
    let map = FloorMap::seeded(11, 11, room(10, 9, 9), (5, 5)).unwrap();
    assert_eq!(map.tile(1, 1), Some(TileState::Wall));
    assert_eq!(map.tile(10, 10), Some(TileState::Wall));
    assert_eq!(map.tile(0, 0), Some(TileState::Empty));
    assert_eq!(count(&map, TileState::Floor), 64);
    assert_eq!(count(&map, TileState::Wall), 100 - 64);
}

#[test]
fn room_is_attached_on_the_connector() {
    let mut map = FloorMap::seeded(40, 40, room(10, 4, 4), (20, 20)).unwrap();
    let c = conn(20, 18, Direction::North);
    assert!(map.try_attach(c, room(10, 5, 6)));
    assert_eq!(map.tile(20, 18), Some(TileState::Door));
    assert_eq!(map.joined(), &vec![c]);
    assert!(map.blocked().is_empty());
    assert_eq!(
        map.available(),
        &vec![
            conn(22, 20, Direction::East),
            conn(18, 20, Direction::West),
            conn(20, 22, Direction::South),
            conn(20, 18, Direction::North),
            conn(23, 15, Direction::East),
            conn(18, 15, Direction::West),
            conn(20, 12, Direction::North),
        ]
    );
    let expected = [
        (12, "######"),
        (13, "#....#"),
        (14, "#....#"),
        (15, "#....#"),
        (16, "#....#"),
        (17, "#....#"),
        (18, "##+###"),
        (19, "#...#?"),
        (20, "#...#?"),
        (21, "#...#?"),
        (22, "#####?"),
        (23, "??????"),
    ];
    let text = map.grid().render();
    let lines: Vec<&str> = text.lines().collect();
    for (y, row) in expected {
        assert_eq!(&lines[y][18..24], row);
    }
    assert_eq!(count(&map, TileState::Floor), 9 + 20);
    assert_eq!(count(&map, TileState::Door), 1);
}

#[test]
fn attached_room_lays_floor_on_empty_tiles_only() {
    let mut map = FloorMap::seeded(40, 40, room(10, 4, 4), (20, 20)).unwrap();
    let before = map.clone();
    assert!(map.try_attach(conn(18, 20, Direction::West), room(10, 7, 5)));
    for y in 0..40 {
        for x in 0..40 {
            let old = before.tile(x, y).unwrap();
            let new = map.tile(x, y).unwrap();
            if new == TileState::Floor && old != TileState::Floor {
                assert_eq!(old, TileState::Empty);
            }
            if old == TileState::Floor {
                assert_eq!(new, TileState::Floor);
            }
        }
    }
    assert_eq!(count(&map, TileState::Floor), 9 + 6 * 4);
}

#[test]
fn room_that_would_cover_floor_is_refused() {
    let mut map = FloorMap::seeded(40, 40, room(10, 4, 4), (20, 20)).unwrap();
    let c = conn(20, 18, Direction::North);
    assert!(map.try_attach(c, room(10, 5, 6)));
    let text = map.grid().render();
    let stack = map.available().clone();
    assert!(!map.try_attach(c, room(10, 5, 6)));
    assert!(!map.try_attach(c, room(10, 4, 4)));
    assert!(!map.try_attach(conn(20, 18, Direction::South), room(10, 4, 4)));
    assert_eq!(map.grid().render(), text);
    assert_eq!(map.available(), &stack);
    assert_eq!(map.joined(), &vec![c]);
}

#[test]
fn room_with_a_negative_offset_is_refused() {
    let mut map = FloorMap::seeded(40, 40, room(10, 4, 4), (5, 5)).unwrap();
    let text = map.grid().render();
    assert!(!map.try_attach(conn(3, 5, Direction::West), room(10, 9, 9)));
    assert!(!map.try_attach(conn(3, 5, Direction::West), room(10, 4, 4)));
    assert!(!map.try_attach(conn(5, 3, Direction::North), room(10, 4, 4)));
    assert_eq!(map.grid().render(), text);
    assert_eq!(map.available().len(), 4);
    assert!(map.joined().is_empty());
}

#[test]
fn room_that_reaches_the_far_edge_is_refused() {
    let mut map = FloorMap::seeded(40, 40, room(10, 4, 4), (34, 34)).unwrap();
    let text = map.grid().render();
    assert!(!map.try_attach(conn(36, 34, Direction::East), room(10, 4, 4)));
    assert!(!map.try_attach(conn(34, 36, Direction::South), room(10, 4, 4)));
    assert_eq!(map.grid().render(), text);
}

#[test]
fn room_must_end_before_the_last_column() {
    let mut near = FloorMap::seeded(30, 40, room(10, 4, 4), (17, 20)).unwrap();
    assert_eq!(near.available()[0], conn(19, 20, Direction::East));
    assert!(near.try_attach(conn(19, 20, Direction::East), room(10, 4, 4)));
    assert_eq!(near.tile(28, 20), Some(TileState::Empty));
    let mut far = FloorMap::seeded(30, 40, room(10, 4, 4), (18, 20)).unwrap();
    assert_eq!(far.available()[0], conn(20, 20, Direction::East));
    assert!(!far.try_attach(conn(20, 20, Direction::East), room(10, 4, 4)));
}

#[test]
fn room_must_end_before_the_last_row() {
    let mut near = FloorMap::seeded(40, 30, room(10, 4, 4), (20, 17)).unwrap();
    assert!(near.try_attach(conn(20, 19, Direction::South), room(10, 4, 4)));
    let mut far = FloorMap::seeded(40, 30, room(10, 4, 4), (20, 18)).unwrap();
    assert!(!far.try_attach(conn(20, 20, Direction::South), room(10, 4, 4)));
}

#[test]
fn rooms_may_share_a_wall() {
    let mut map = FloorMap::seeded(40, 40, room(10, 4, 4), (20, 20)).unwrap();
    assert!(map.try_attach(conn(18, 20, Direction::West), room(10, 4, 4)));
    assert_eq!(map.tile(18, 20), Some(TileState::Door));
    assert_eq!(map.tile(17, 20), Some(TileState::Floor));
    assert_eq!(map.tile(19, 20), Some(TileState::Floor));
    assert_eq!(map.tile(18, 19), Some(TileState::Wall));
    assert_eq!(map.tile(14, 20), Some(TileState::Wall));
    assert_eq!(count(&map, TileState::Wall), 2 * 16 - 5 - 1);
}

#[test]
fn offer_counts_the_tries_and_blocks_when_the_budget_is_spent() {
    assert_eq!(RETRY_BUDGET, 10);
    let mut map = FloorMap::seeded(11, 11, room(10, 4, 4), (5, 5)).unwrap();
    let text = map.grid().render();
    let top = conn(5, 3, Direction::North);
    assert_eq!(map.available().last(), Some(&top));
    let mut tries = 0;
    for n in 1..10 {
        tries = map.offer(tries, room(10, 4 + n % 6, 4 + (n * 5) % 6));
        assert_eq!(tries, n);
        assert_eq!(map.available().len(), 4);
        assert!(map.blocked().is_empty());
    }
    tries = map.offer(tries, room(10, 4, 4));
    assert_eq!(tries, 0);
    assert_eq!(map.available().len(), 3);
    assert_eq!(map.blocked(), &vec![top]);
    assert_eq!(map.grid().render(), text);
    assert!(map.joined().is_empty());
}

#[test]
fn offer_starts_anew_after_a_room_was_attached() {
    let mut map = FloorMap::seeded(40, 40, room(10, 4, 4), (20, 20)).unwrap();
    assert_eq!(map.offer(7, room(10, 5, 6)), 0);
    assert_eq!(map.joined(), &vec![conn(20, 18, Direction::North)]);
    assert_eq!(
        map.available(),
        &vec![
            conn(22, 20, Direction::East),
            conn(18, 20, Direction::West),
            conn(20, 22, Direction::South),
            conn(23, 15, Direction::East),
            conn(18, 15, Direction::West),
            conn(20, 12, Direction::North),
        ]
    );
}

#[test]
fn offer_with_a_count_beyond_the_budget_blocks() {
    let mut map = FloorMap::seeded(11, 11, room(10, 4, 4), (5, 5)).unwrap();
    assert_eq!(map.offer(usize::MAX, room(10, 4, 4)), 0);
    assert_eq!(map.blocked().len(), 1);
    assert_eq!(map.offer(9, room(10, 4, 4)), 0);
    assert_eq!(map.blocked(), &vec![conn(5, 3, Direction::North), conn(5, 7, Direction::South)]);
}

#[test]
fn offer_on_an_empty_stack_does_nothing() {
    let mut map = FloorMap::new(30, 30);
    assert_eq!(map.offer(3, room(10, 4, 4)), 3);
    assert_eq!(count(&map, TileState::Empty), 900);
    assert!(map.blocked().is_empty());
}

#[test]
fn connector_that_pushes_rooms_past_the_edge_ends_blocked() {
    let east = conn(8, 20, Direction::East);
    let west = conn(2, 20, Direction::West);
    let mut probe = FloorMap::seeded(12, 40, room(10, 6, 6), (5, 20)).unwrap();
    assert_eq!(probe.available()[0], east);
    assert_eq!(probe.available()[1], west);
    for w in 4..10 {
        for h in 4..10 {
            assert!(!probe.try_attach(east, room(10, w, h)));
            assert!(!probe.try_attach(west, room(10, w, h)));
        }
    }
    for seed in 0..10u64 {
        let mut rng = StdRng::seed_from_u64(seed);
        let mut map = FloorMap::seeded(12, 40, room(10, 6, 6), (5, 20)).unwrap();
        assert_eq!(map.assemble(10, &mut rng), Ok(()));
        assert!(map.available().is_empty());
        assert!(map.blocked().contains(&east));
        assert!(map.blocked().contains(&west));
        assert!(!map.joined().contains(&east));
        assert!(!map.joined().contains(&west));
        for c in map.joined().iter() {
            assert!(c.direction == Direction::North || c.direction == Direction::South);
        }
    }
}

#[test]
fn assemble_with_too_small_rooms_is_refused() {
    let mut rng = StdRng::seed_from_u64(1);
    let mut map = FloorMap::seeded(40, 40, room(10, 4, 4), (20, 20)).unwrap();
    let text = map.grid().render();
    assert_eq!(map.assemble(4, &mut rng), Err(GenError::RoomDimension));
    assert_eq!(map.available().len(), 4);
    assert_eq!(map.grid().render(), text);
}

#[test]
fn assemble_on_a_floor_without_connectors_draws_nothing() {
    let mut rng = StdRng::seed_from_u64(1);
    let mut untouched = StdRng::seed_from_u64(1);
    let mut map = FloorMap::new(20, 20);
    assert_eq!(map.assemble(10, &mut rng), Ok(()));
    assert_eq!(count(&map, TileState::Empty), 400);
    assert_eq!(rng.next_u64(), untouched.next_u64());
}

#[test]
fn reconcile_heals_a_blocked_connector_between_two_rooms() {
    // A second room west of the first, and a third north of both, attached
    // on the second: the first room's north connector then lies between the
    // floor of the first room and the floor of the third.
    let mut map = FloorMap::seeded(40, 40, room(10, 4, 4), (20, 20)).unwrap();
    assert!(map.try_attach(conn(18, 20, Direction::West), room(10, 4, 4)));
    assert_eq!(map.available().last(), Some(&conn(16, 18, Direction::North)));
    assert_eq!(map.offer(0, room(10, 9, 4)), 0);
    assert_eq!(map.tile(16, 18), Some(TileState::Door));
    let between = conn(20, 18, Direction::North);
    assert_eq!(map.tile(20, 17), Some(TileState::Floor));
    assert_eq!(map.tile(20, 18), Some(TileState::Wall));
    assert_eq!(map.tile(20, 19), Some(TileState::Floor));
    assert!(map.available().contains(&between));
    let mut rng = StdRng::seed_from_u64(4);
    assert_eq!(map.assemble(10, &mut rng), Ok(()));
    assert!(map.blocked().contains(&between));
    assert!(!map.joined().contains(&between));
    assert_eq!(map.tile(20, 18), Some(TileState::Wall));
    let floor_before = count(&map, TileState::Floor);
    map.reconcile();
    assert_eq!(map.tile(20, 18), Some(TileState::Door));
    assert_eq!(count(&map, TileState::Floor), floor_before);
    assert!(map.blocked().contains(&between));
}

#[test]
fn blocked_connectors_without_floor_on_both_sides_stay_walls() {
    let mut map = FloorMap::seeded(11, 11, room(10, 4, 4), (5, 5)).unwrap();
    for _ in 0..4 {
        let mut tries = 0;
        for _ in 0..10 {
            tries = map.offer(tries, room(10, 4, 4));
        }
        assert_eq!(tries, 0);
    }
    assert!(map.available().is_empty());
    assert_eq!(
        map.blocked(),
        &vec![
            conn(5, 3, Direction::North),
            conn(5, 7, Direction::South),
            conn(3, 5, Direction::West),
            conn(7, 5, Direction::East),
        ]
    );
    let text = map.grid().render();
    map.reconcile();
    assert_eq!(map.grid().render(), text);
    map.finalize();
    assert_eq!(count(&map, TileState::Empty), 0);
    assert_eq!(count(&map, TileState::Door), 0);
    assert_eq!(count(&map, TileState::Floor), 9);
    assert_eq!(count(&map, TileState::Wall), 121 - 9);
}

#[test]
fn generated_floor_has_no_empty_tile() {
    for (seed, width, height, max, start) in [
        (1u64, 40, 40, 10, (20, 20)),
        (2, 100, 100, 10, (50, 5)),
        (3, 25, 60, 8, (12, 30)),
        (4, 64, 32, 12, (6, 6)),
        (5, 11, 11, 10, (5, 5)),
        (6, 30, 30, 5, (15, 15)),
    ] {
        let mut rng = StdRng::seed_from_u64(seed);
        let map = FloorMap::generate_floor(width, height, max, start, &mut rng).unwrap();
        assert_eq!(map.width(), width);
        assert_eq!(map.height(), height);
        assert_eq!(count(&map, TileState::Empty), 0);
        assert!(map.available().is_empty());
        assert_eq!(map.tile(start.0, start.1), Some(TileState::Floor));
        let text = map.grid().render();
        assert!(!text.contains('?'));
        assert_eq!(text.len(), (width + 1) * height);
    }
}

#[test]
fn generated_floor_is_the_same_for_the_same_seed() {
    for seed in 0..5u64 {
        let mut first = StdRng::seed_from_u64(seed);
        let mut second = StdRng::seed_from_u64(seed);
        let a = FloorMap::generate_floor(60, 50, 10, (30, 25), &mut first).unwrap();
        let b = FloorMap::generate_floor(60, 50, 10, (30, 25), &mut second).unwrap();
        assert_eq!(a.grid().render(), b.grid().render());
        assert_eq!(a.blocked(), b.blocked());
        assert_eq!(a.joined(), b.joined());
        assert_eq!(first.next_u64(), second.next_u64());
    }
}

#[test]
fn generated_floor_differs_with_the_seed() {
    let mut texts = Vec::new();
    for seed in 0..6u64 {
        let mut rng = StdRng::seed_from_u64(seed);
        let map = FloorMap::generate_floor(60, 50, 10, (30, 25), &mut rng).unwrap();
        texts.push(map.grid().render());
    }
    texts.sort();
    texts.dedup();
    assert!(texts.len() > 1);
}

#[test]
fn generated_floor_is_the_replay_of_its_draws() {
    for (seed, width, height, max, start) in [
        (1u64, 40, 40, 10, (20, 20)),
        (2, 100, 100, 10, (50, 5)),
        (3, 25, 60, 8, (12, 30)),
        (9, 12, 40, 10, (5, 20)),
        (5, 11, 11, 10, (5, 5)),
    ] {
        let mut rng = StdRng::seed_from_u64(seed);
        let made = FloorMap::generate_floor(width, height, max, start, &mut rng).unwrap();
        let again = replayed(width, height, max, start, seed);
        assert_eq!(made.grid().render(), again.grid().render());
        assert_eq!(made.blocked(), again.blocked());
        assert_eq!(made.joined(), again.joined());
    }
}

#[test]
fn connector_on_which_nothing_fits_costs_the_whole_budget() {
    let mut rng = StdRng::seed_from_u64(7);
    let map = FloorMap::generate_floor(11, 11, 10, (5, 5), &mut rng).unwrap();
    assert_eq!(map.blocked().len(), 4);
    assert!(map.joined().is_empty());
    assert_eq!(count(&map, TileState::Door), 0);
    let mut same = StdRng::seed_from_u64(7);
    let w = same.gen_range(4..10usize);
    let h = same.gen_range(4..10usize);
    let mut expected = FloorMap::seeded(11, 11, room(10, w, h), (5, 5)).unwrap();
    expected.finalize();
    assert_eq!(map.grid().render(), expected.grid().render());
    for _ in 0..(4 * RETRY_BUDGET * 2) {
        let n = same.gen_range(4..10usize);
        assert!((4..10).contains(&n));
    }
    assert_eq!(rng.next_u64(), same.next_u64());
}

#[test]
fn every_door_is_accounted_for() {
    for seed in 0..8u64 {
        let mut rng = StdRng::seed_from_u64(seed);
        let map = FloorMap::generate_floor(50, 50, 10, (25, 25), &mut rng).unwrap();
        for y in 0..50 {
            for x in 0..50 {
                if map.tile(x, y) != Some(TileState::Door) {
                    continue;
                }
                let joined = map.joined().iter().any(|c| c.x == x && c.y == y);
                let floor = |x: usize, y: usize| map.tile(x, y) == Some(TileState::Floor);
                let healed = map.blocked().iter().any(|c| c.x == x && c.y == y)
                    && 0 < x
                    && x < 49
                    && 0 < y
                    && y < 49
                    && ((floor(x, y - 1) && floor(x, y + 1)) || (floor(x - 1, y) && floor(x + 1, y)));
                assert!(joined || healed);
            }
        }
        for c in map.joined().iter() {
            assert_eq!(map.tile(c.x, c.y), Some(TileState::Door));
        }
        assert!(!map.joined().is_empty());
    }
}

#[test]
fn every_floor_tile_can_be_reached_from_the_start() {
    for seed in 0..8u64 {
        let mut rng = StdRng::seed_from_u64(seed);
        let map = FloorMap::generate_floor(50, 40, 9, (25, 20), &mut rng).unwrap();
        let mut seen = vec![vec![false; 50]; 40];
        let mut stack = vec![(25usize, 20usize)];
        seen[20][25] = true;
        while let Some((x, y)) = stack.pop() {
            for (nx, ny) in [(x + 1, y), (x.wrapping_sub(1), y), (x, y + 1), (x, y.wrapping_sub(1))] {
                let open = matches!(map.tile(nx, ny), Some(TileState::Floor) | Some(TileState::Door));
                if open && !seen[ny][nx] {
                    seen[ny][nx] = true;
                    stack.push((nx, ny));
                }
            }
        }
        for y in 0..40 {
            for x in 0..50 {
                if map.tile(x, y) == Some(TileState::Floor) {
                    assert!(seen[y][x]);
                }
            }
        }
    }
}

#[test]
fn generation_is_refused_for_bad_parameters() {
    let mut rng = StdRng::seed_from_u64(1);
    let mut untouched = StdRng::seed_from_u64(1);
    for max in 0..5 {
        assert_eq!(
            FloorMap::generate_floor(40, 40, max, (20, 20), &mut rng).err(),
            Some(GenError::RoomDimension)
        );
        assert_eq!(
            FloorMap::generate_floor(40, 40, max, (0, 0), &mut rng).err(),
            Some(GenError::RoomDimension)
        );
    }
    for start in [(4, 20), (20, 4), (35, 20), (20, 35), (40, 40), (100, 5)] {
        assert_eq!(
            FloorMap::generate_floor(40, 40, 10, start, &mut rng).err(),
            Some(GenError::StartOutOfBounds)
        );
    }
    assert_eq!(
        FloorMap::generate_floor(0, 0, 10, (0, 0), &mut rng).err(),
        Some(GenError::StartOutOfBounds)
    );
    assert_eq!(rng.next_u64(), untouched.next_u64());
}

#[test]
fn floor_of_a_hundred_tiles_from_the_middle_of_the_top() {
    let mut rng = StdRng::seed_from_u64(2024);
    let map = FloorMap::generate_floor(100, 100, 10, (50, 5), &mut rng).unwrap();
    assert_eq!(count(&map, TileState::Empty), 0);
    assert!(count(&map, TileState::Floor) >= 9);
    assert!(count(&map, TileState::Door) >= 1);
    assert_eq!(
        count(&map, TileState::Floor) + count(&map, TileState::Wall) + count(&map, TileState::Door),
        10_000
    );
}

#[test]
fn no_room_of_a_whole_assembly_lays_floor_on_anything_but_empty_tiles() {
    let mut rng = StdRng::seed_from_u64(21);
    let first = Room::new(10, &mut rng).unwrap();
    let mut map = FloorMap::seeded(60, 60, first, (30, 30)).unwrap();
    let mut tries = 0;
    let mut attached = 0;
    while !map.available().is_empty() {
        let before = map.clone();
        let candidate = Room::new(10, &mut rng).unwrap();
        tries = map.offer(tries, candidate);
        let mut new_floor = 0;
        for y in 0..60 {
            for x in 0..60 {
                let old = before.tile(x, y).unwrap();
                let new = map.tile(x, y).unwrap();
                match old {
                    TileState::Empty => {}
                    TileState::Floor => assert_eq!(new, TileState::Floor),
                    TileState::Wall => assert!(new == TileState::Wall || new == TileState::Door),
                    TileState::Door => assert_eq!(new, TileState::Door),
                }
                if new == TileState::Floor && old != TileState::Floor {
                    assert_eq!(old, TileState::Empty);
                    new_floor += 1;
                }
            }
        }
        if map.joined().len() > before.joined().len() {
            assert!(new_floor >= 9);
            assert_eq!(tries, 0);
            attached += 1;
        } else {
            assert_eq!(new_floor, 0);
            assert_eq!(map.grid().render(), before.grid().render());
        }
    }
    assert!(attached > 0);
    assert_eq!(map.joined().len(), attached);
}

#[test]
fn connectors_stand_on_walls_or_doors_with_floor_behind_them() {
    let mut rng = StdRng::seed_from_u64(33);
    let first = Room::new(10, &mut rng).unwrap();
    let mut map = FloorMap::seeded(50, 50, first, (25, 25)).unwrap();
    let mut tries = 0;
    while !map.available().is_empty() {
        tries = map.offer(tries, Room::new(10, &mut rng).unwrap());
        for c in map.available().iter().chain(map.blocked().iter()) {
            let here = map.tile(c.x, c.y).unwrap();
            assert!(here == TileState::Wall || here == TileState::Door);
            let behind = match c.direction {
                Direction::North => (c.x, c.y + 1),
                Direction::South => (c.x, c.y - 1),
                Direction::West => (c.x + 1, c.y),
                Direction::East => (c.x - 1, c.y),
            };
            assert_eq!(map.tile(behind.0, behind.1), Some(TileState::Floor));
        }
        for c in map.joined().iter() {
            assert_eq!(map.tile(c.x, c.y), Some(TileState::Door));
        }
    }
}
