use dungeon_floor::grid::TileGrid;
use dungeon_floor::placement::compatible;
use dungeon_floor::render::glyph;
use dungeon_floor::tile::{Connector, Direction, TileState};

fn grid_from(rows: &[&str]) -> TileGrid {
    let height = rows.len();
    let width = if height == 0 { 0 } else { rows[0].len() };
    let mut g = TileGrid::new(width, height);
    for (y, row) in rows.iter().enumerate() {
        for (x, ch) in row.chars().enumerate() {
            let t = match ch {
                '.' => TileState::Floor,
                '#' => TileState::Wall,
                '+' => TileState::Door,
                _ => TileState::Empty,
            };
            assert!(g.set(x, y, t));
        }
    }
    g
}

fn text_of(rows: &[&str]) -> String {
    let mut s = String::new();
    for row in rows {
        s.push_str(row);
        s.push('\n');
    }
    s
}

#[test]
fn new_grid_is_empty() {
    let g = TileGrid::new(4, 3);
    assert_eq!(g.width(), 4);
    assert_eq!(g.height(), 3);
    for y in 0..3 {
        for x in 0..4 {
            assert_eq!(g.get(x, y), Some(TileState::Empty));
            assert_eq!(g.tile(x, y), TileState::Empty);
        }
    }
}

#[test]
fn get_outside_the_grid_is_none() {
    let g = TileGrid::new(4, 3);
    assert_eq!(g.get(4, 0), None);
    assert_eq!(g.get(0, 3), None);
    assert_eq!(g.get(4, 3), None);
    assert_eq!(g.get(usize::MAX, usize::MAX), None);
}

#[test]
fn grid_without_tiles() {
    let g = TileGrid::new(0, 0);
    assert_eq!(g.get(0, 0), None);
    assert_eq!(g.render(), "");
    let tall = TileGrid::new(0, 2);
    assert_eq!(tall.get(0, 0), None);
    assert_eq!(tall.render(), "\n\n");
}

#[test]
fn set_writes_one_tile_only() {
    let mut g = TileGrid::new(3, 3);
    assert!(g.set(1, 2, TileState::Door));
    for y in 0..3 {
        for x in 0..3 {
            let expected = if (x, y) == (1, 2) { TileState::Door } else { TileState::Empty };
            assert_eq!(g.get(x, y), Some(expected));
        }
    }
}

#[test]
fn set_outside_the_grid_changes_nothing() {
    let mut g = TileGrid::new(3, 2);
    assert!(!g.set(3, 0, TileState::Floor));
    assert!(!g.set(0, 2, TileState::Floor));
    assert_eq!(g.render(), "???\n???\n");
}

#[test]
fn write_then_tile() {
    let mut g = TileGrid::new(2, 2);
    g.write(1, 0, TileState::Wall);
    assert_eq!(g.tile(1, 0), TileState::Wall);
    assert_eq!(g.tile(0, 1), TileState::Empty);
}

#[test]
fn finalize_turns_empty_into_wall_only() {
    let mut g = grid_from(&["?.#", "+??"]);
    g.finalize();
    assert_eq!(g.render(), text_of(&["#.#", "+##"]));
}

#[test]
fn finalize_leaves_no_empty_tile() {
    let mut g = TileGrid::new(9, 7);
    g.set(3, 3, TileState::Floor);
    g.set(4, 3, TileState::Door);
    g.finalize();
    for y in 0..7 {
        for x in 0..9 {
            assert_ne!(g.tile(x, y), TileState::Empty);
        }
    }
    assert_eq!(g.tile(3, 3), TileState::Floor);
    assert_eq!(g.tile(4, 3), TileState::Door);
}

#[test]
fn glyph_of_each_tile() {
    assert_eq!(glyph(TileState::Empty), '?');
    assert_eq!(glyph(TileState::Floor), '.');
    assert_eq!(glyph(TileState::Wall), '#');
    assert_eq!(glyph(TileState::Door), '+');
}

#[test]
fn render_gives_one_line_for_each_row() {
    let g = grid_from(&["?.#+", "+#.?"]);
    assert_eq!(g.render(), "?.#+\n+#.?\n");
}

#[test]
fn render_twice_gives_the_same_text() {
    let mut g = TileGrid::new(6, 5);
    g.set(2, 2, TileState::Floor);
    assert!(g.wall_in_floor().is_ok());
    g.finalize();
    let first = g.render();
    let second = g.render();
    assert_eq!(first, second);
    assert_eq!(first, text_of(&["######", "######", "##.###", "######", "######"]));
}

#[test]
fn compatibility_of_every_pair_of_tiles() {
    let (empty, floor, wall, door) =
        (TileState::Empty, TileState::Floor, TileState::Wall, TileState::Door);
    for target in [empty, floor, wall, door] {
        assert!(compatible(empty, target));
    }
    assert!(compatible(floor, empty));
    assert!(!compatible(floor, floor));
    assert!(!compatible(floor, wall));
    assert!(!compatible(floor, door));
    assert!(compatible(wall, empty));
    assert!(!compatible(wall, floor));
    assert!(compatible(wall, wall));
    assert!(!compatible(wall, door));
    assert!(compatible(door, empty));
    assert!(!compatible(door, floor));
    assert!(!compatible(door, wall));
    assert!(compatible(door, door));
}

#[test]
fn fits_on_an_empty_grid() {
    let target = TileGrid::new(6, 6);
    let room = grid_from(&["###", "#.#", "###"]);
    assert!(target.fits(&room, 0, 0));
    assert!(target.fits(&room, 3, 3));
    assert!(!target.fits(&room, 4, 3));
    assert!(!target.fits(&room, 3, 4));
    assert!(!target.fits(&room, 7, 0));
    assert!(!target.fits(&room, usize::MAX, 0));
}

#[test]
fn fits_looks_only_at_tiles_that_are_not_empty() {
    let target = TileGrid::new(3, 3);
    let room = grid_from(&["##??", "##??", "????"]);
    assert!(target.fits(&room, 1, 1));
    assert!(!target.fits(&room, 2, 1));
}

#[test]
fn fits_lets_walls_share_a_wall() {
    let target = grid_from(&["###???", "#.#???", "###???"]);
    let room = grid_from(&["###", "#.#", "###"]);
    assert!(target.fits(&room, 2, 0));
    assert!(!target.fits(&room, 1, 0));
    assert!(!target.fits(&room, 0, 0));
}

#[test]
fn fits_refuses_a_wall_on_a_door() {
    let target = grid_from(&["##+???"]);
    let wall = grid_from(&["#"]);
    let door = grid_from(&["+"]);
    assert!(!target.fits(&wall, 2, 0));
    assert!(target.fits(&door, 2, 0));
    assert!(!target.fits(&door, 1, 0));
    assert!(target.fits(&door, 3, 0));
}

#[test]
fn merge_skips_empty_tiles() {
    let mut target = grid_from(&["######", "#....#", "######"]);
    let room = grid_from(&["?+?", "???"]);
    assert!(target.merge(&room, 2, 0));
    assert_eq!(target.render(), text_of(&["###+##", "#....#", "######"]));
}

#[test]
fn merge_copies_at_the_offset() {
    let mut target = TileGrid::new(5, 4);
    let room = grid_from(&["###", "#.#", "###"]);
    assert!(target.merge(&room, 2, 1));
    assert_eq!(target.render(), text_of(&["?????", "??###", "??#.#", "??###"]));
}

#[test]
fn merge_may_hang_over_the_edge_with_empty_tiles() {
    let mut target = TileGrid::new(3, 3);
    let room = grid_from(&["##??", "#.??", "????"]);
    assert!(target.lands(&room, 1, 1));
    assert!(target.merge(&room, 1, 1));
    assert_eq!(target.render(), text_of(&["???", "?##", "?#."]));
}

#[test]
fn merge_copies_nothing_where_a_tile_would_land_outside() {
    let rows = ["#.#", "???", "+??"];
    let room = grid_from(&["##", "#."]);
    for (ox, oy) in [(2, 0), (0, 2), (2, 2), (3, 0), (0, 3), (usize::MAX, 0), (0, usize::MAX)] {
        let mut target = grid_from(&rows);
        assert!(!target.lands(&room, ox, oy));
        assert!(!target.merge(&room, ox, oy));
        assert_eq!(target.render(), text_of(&rows));
    }
    let mut target = grid_from(&rows);
    assert!(target.lands(&room, 1, 1));
    assert!(target.merge(&room, 1, 1));
    assert_eq!(target.render(), text_of(&["#.#", "?##", "+#."]));
}

#[test]
fn merge_writes_over_what_was_there() {
    let mut target = grid_from(&["..", "++"]);
    let room = grid_from(&["#?", "?."]);
    assert!(!target.fits(&room, 0, 0));
    assert!(target.merge(&room, 0, 0));
    assert_eq!(target.render(), text_of(&["#.", "+."]));
}

#[test]
fn room_of_empty_tiles_lands_anywhere() {
    let mut target = grid_from(&["#."]);
    let room = TileGrid::new(5, 5);
    assert!(target.lands(&room, 9, 9));
    assert!(target.fits(&room, 9, 9));
    assert!(target.merge(&room, 9, 9));
    assert_eq!(target.render(), "#.\n");
}

#[test]
fn reconcile_makes_a_door_between_floor_west_and_east() {
    let mut g = grid_from(&["#######", "#..#..#", "#######"]);
    let blocked = vec![Connector { x: 3, y: 1, direction: Direction::East }];
    g.reconcile(&blocked);
    assert_eq!(g.render(), text_of(&["#######", "#..+..#", "#######"]));
}

#[test]
fn reconcile_makes_a_door_between_floor_north_and_south() {
    let mut g = grid_from(&["###", "#.#", "###", "#.#", "###"]);
    let blocked = vec![Connector { x: 1, y: 2, direction: Direction::South }];
    g.reconcile(&blocked);
    assert_eq!(g.render(), text_of(&["###", "#.#", "#+#", "#.#", "###"]));
}

#[test]
fn reconcile_turns_two_blocked_connectors_into_doors() {
    let mut g = grid_from(&[
        "#########",
        "#..#..#.#",
        "####.####",
        "#...#...#",
        "####.####",
        "#########",
    ]);
    let blocked = vec![
        Connector { x: 3, y: 1, direction: Direction::East },
        Connector { x: 4, y: 3, direction: Direction::North },
        Connector { x: 6, y: 1, direction: Direction::West },
    ];
    g.reconcile(&blocked);
    assert_eq!(
        g.render(),
        text_of(&[
            "#########",
            "#..+..+.#",
            "####.####",
            "#...+...#",
            "####.####",
            "#########",
        ])
    );
}

#[test]
fn reconcile_leaves_a_connector_without_a_floor_pair() {
    let rows = ["#####", "#.#?#", "#####", "#?#?#", "#####"];
    let mut g = grid_from(&rows);
    let blocked = vec![
        Connector { x: 2, y: 1, direction: Direction::East },
        Connector { x: 1, y: 2, direction: Direction::South },
        Connector { x: 2, y: 2, direction: Direction::South },
    ];
    g.reconcile(&blocked);
    assert_eq!(g.render(), text_of(&rows));
}

#[test]
fn reconcile_never_converts_a_connector_on_the_boundary() {
    let rows = [".#.#.", "#...#", ".#.#.", "#...#", ".#.#."];
    let mut g = grid_from(&rows);
    let blocked = vec![
        Connector { x: 1, y: 0, direction: Direction::North },
        Connector { x: 3, y: 4, direction: Direction::South },
        Connector { x: 0, y: 1, direction: Direction::West },
        Connector { x: 4, y: 3, direction: Direction::East },
        Connector { x: 0, y: 0, direction: Direction::West },
        Connector { x: 9, y: 9, direction: Direction::East },
    ];
    g.reconcile(&blocked);
    assert_eq!(g.render(), text_of(&rows));
}

#[test]
fn reconcile_with_no_blocked_connector_changes_nothing() {
    let rows = ["#####", "#.#.#", "#####"];
    let mut g = grid_from(&rows);
    g.reconcile(&Vec::new());
    assert_eq!(g.render(), text_of(&rows));
}

#[test]
fn reconcile_on_a_narrow_grid() {
    let mut g = grid_from(&[".#."]);
    g.reconcile(&vec![Connector { x: 1, y: 0, direction: Direction::East }]);
    assert_eq!(g.render(), ".#.\n");
    let mut empty = TileGrid::new(0, 0);
    empty.reconcile(&vec![Connector { x: 0, y: 0, direction: Direction::East }]);
    assert_eq!(empty.render(), "");
}
