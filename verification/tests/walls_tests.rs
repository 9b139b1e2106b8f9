use dungeon_floor::error::GenError;
use dungeon_floor::grid::TileGrid;
use dungeon_floor::tile::{Connector, Direction, TileState};

fn grid_of(rows: &[&str]) -> TileGrid {
    let height = rows.len();
    let width = if height == 0 { 0 } else { rows[0].len() };
    let mut g = TileGrid::new(width, height);
    for (y, row) in rows.iter().enumerate() {
        for (x, ch) in row.chars().enumerate() {
            let t = match ch {
                '.' => TileState::Floor,
                '#' => TileState::Wall,
                '+' => TileState::Door,
                _ => TileState::Empty,
            };
            assert!(g.set(x, y, t));
        }
    }
    g
}

fn lines(rows: &[&str]) -> String {
    let mut s = String::new();
    for row in rows {
        s.push_str(row);
        s.push('\n');
    }
    s
}

#[test]
fn opposite_of_each_direction() {
    assert_eq!(Direction::North.opposite(), Direction::South);
    assert_eq!(Direction::South.opposite(), Direction::North);
    assert_eq!(Direction::East.opposite(), Direction::West);
    assert_eq!(Direction::West.opposite(), Direction::East);
}

#[test]
fn opposite_twice_is_the_direction_itself() {
    for d in [Direction::North, Direction::South, Direction::East, Direction::West] {
        assert_eq!(d.opposite().opposite(), d);
        assert_ne!(d.opposite(), d);
    }
}

#[test]
fn wall_in_one_floor_tile() {
    let mut g = grid_of(&["?????", "?????", "??.??", "?????", "?????"]);
    assert_eq!(g.wall_in_floor(), Ok(()));
    assert_eq!(g.render(), lines(&["?????", "?###?", "?#.#?", "?###?", "?????"]));
}

#[test]
fn wall_in_includes_the_diagonals() {
    let mut g = grid_of(&["????", "?.??", "??.?", "????"]);
    assert_eq!(g.wall_in_floor(), Ok(()));
    assert_eq!(g.render(), lines(&["###?", "#.##", "##.#", "?###"]));
}

#[test]
fn wall_in_keeps_what_is_not_empty() {
    let mut g = grid_of(&["+????", "?.?.?", "????+"]);
    assert_eq!(g.wall_in_floor(), Ok(()));
    assert_eq!(g.render(), lines(&["+####", "#.#.#", "####+"]));
}

#[test]
fn wall_in_without_floor_changes_nothing() {
    let mut g = grid_of(&["?#?", "+??"]);
    assert_eq!(g.wall_in_floor(), Ok(()));
    assert_eq!(g.render(), lines(&["?#?", "+??"]));
}

#[test]
fn wall_in_reports_floor_on_the_edge() {
    for rows in [
        ["?.??", "????", "????", "????"],
        ["????", ".???", "????", "????"],
        ["????", "???.", "????", "????"],
        ["????", "????", "????", "??.?"],
        ["????", "?.??", "????", "...."],
    ] {
        let mut g = grid_of(&rows);
        assert!(!g.floor_is_clear_of_edge());
        assert_eq!(g.wall_in_floor(), Err(GenError::FloorOnEdge));
        assert_eq!(g.render(), lines(&rows));
    }
}

#[test]
fn floor_clear_of_edge_is_seen() {
    assert!(grid_of(&["####", "#..#", "####"]).floor_is_clear_of_edge());
    assert!(TileGrid::new(0, 0).floor_is_clear_of_edge());
    assert!(!grid_of(&["."]).floor_is_clear_of_edge());
}

#[test]
fn first_wall_in_each_direction() {
    let g = grid_of(&[
        "???#???", "???.???", "???.???", "#...#??", "???.???", "???#???", "???#???",
    ]);
    assert_eq!(
        g.first_wall(3, 3, Direction::North),
        Some(Connector { x: 3, y: 0, direction: Direction::North })
    );
    assert_eq!(
        g.first_wall(3, 3, Direction::South),
        Some(Connector { x: 3, y: 5, direction: Direction::South })
    );
    assert_eq!(
        g.first_wall(3, 3, Direction::West),
        Some(Connector { x: 0, y: 3, direction: Direction::West })
    );
    assert_eq!(
        g.first_wall(3, 3, Direction::East),
        Some(Connector { x: 4, y: 3, direction: Direction::East })
    );
}

#[test]
fn first_wall_does_not_count_the_start() {
    let g = grid_of(&["#.#.#"]);
    assert_eq!(
        g.first_wall(2, 0, Direction::East),
        Some(Connector { x: 4, y: 0, direction: Direction::East })
    );
    assert_eq!(
        g.first_wall(2, 0, Direction::West),
        Some(Connector { x: 0, y: 0, direction: Direction::West })
    );
}

#[test]
fn first_wall_finds_none_where_the_ray_leaves_the_grid() {
    let g = grid_of(&["?.?", "...", "+.?"]);
    for d in [Direction::North, Direction::South, Direction::East, Direction::West] {
        assert_eq!(g.first_wall(1, 1, d), None);
    }
    assert_eq!(g.first_wall(0, 0, Direction::North), None);
    assert_eq!(g.first_wall(2, 2, Direction::East), None);
}

#[test]
fn first_wall_from_outside_the_grid() {
    let g = grid_of(&["###", "###", "###"]);
    assert_eq!(
        g.first_wall(3, 1, Direction::West),
        Some(Connector { x: 2, y: 1, direction: Direction::West })
    );
    assert_eq!(
        g.first_wall(1, 5, Direction::North),
        Some(Connector { x: 1, y: 2, direction: Direction::North })
    );
    assert_eq!(g.first_wall(3, 1, Direction::East), None);
    assert_eq!(g.first_wall(3, 1, Direction::North), None);
    assert_eq!(g.first_wall(1, 3, Direction::South), None);
    assert_eq!(g.first_wall(1, 3, Direction::West), None);
}

#[test]
fn four_connectors_are_added_north_south_west_east() {
    let g = grid_of(&[
        "???#???", "???.???", "???.???", "#...#??", "???.???", "???#???", "???#???",
    ]);
    let mut connectors = vec![Connector { x: 9, y: 9, direction: Direction::East }];
    assert_eq!(g.add_four_connectors(3, 3, &mut connectors), Ok(()));
    assert_eq!(
        connectors,
        vec![
            Connector { x: 9, y: 9, direction: Direction::East },
            Connector { x: 3, y: 0, direction: Direction::North },
            Connector { x: 3, y: 5, direction: Direction::South },
            Connector { x: 0, y: 3, direction: Direction::West },
            Connector { x: 4, y: 3, direction: Direction::East },
        ]
    );
}

#[test]
fn four_connectors_need_a_wall_on_every_ray() {
    for rows in [
        ["?.?", "#.#", "?#?"],
        ["?#?", "#.#", "?.?"],
        ["?#?", "..#", "?#?"],
        ["?#?", "#..", "?#?"],
        ["???", "?.?", "???"],
    ] {
        let g = grid_of(&rows);
        let mut connectors = vec![Connector { x: 1, y: 1, direction: Direction::West }];
        assert_eq!(g.add_four_connectors(1, 1, &mut connectors), Err(GenError::NoWallOnRay));
        assert_eq!(connectors, vec![Connector { x: 1, y: 1, direction: Direction::West }]);
    }
    let closed = grid_of(&["?#?", "#.#", "?#?"]);
    let mut connectors = Vec::new();
    assert_eq!(closed.add_four_connectors(1, 1, &mut connectors), Ok(()));
    assert_eq!(connectors.len(), 4);
}
