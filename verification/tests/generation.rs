use dungeon::connectivity::is_fully_connected;
use dungeon::dungeon::Dungeon;
use dungeon::geometry::Vector;
use dungeon::stage::{Stage, Tile};

fn passable(d: &Dungeon, x: i32, y: i32) -> bool {
    d.get_tile(Vector(x, y)) != Tile::Wall
}

#[test]
fn generate_keeps_odd_dimensions() {
    let stage = Stage::new(21, 15);
    let mut d = Dungeon::new(stage);
    d.generate();
    assert_eq!(d.stage.width, 21);
    assert_eq!(d.stage.height, 15);
    assert_eq!(d.stage.width % 2, 1);
    assert_eq!(d.stage.height % 2, 1);
    assert_eq!(d.stage.tiles.len(), 21 * 15);
}

#[test]
fn accepted_rooms_are_separated_and_on_lattice() {
    let stage = Stage::new(31, 31);
    let mut d = Dungeon::new(stage);
    d.add_rooms();
    for i in 0..d.rooms.len() {
        let r = d.rooms[i];
        assert!(r.x % 2 == 1 && r.y % 2 == 1);
        assert!(r.w % 2 == 1 && r.h % 2 == 1);
        assert!(r.x >= 1 && r.y >= 1);
        assert!(r.x + r.w <= 30 && r.y + r.h <= 30);
        for j in 0..d.rooms.len() {
            if i != j {
                assert!(r.distance_to(d.rooms[j]) > 0);
            }
        }
    }
}

#[test]
fn generated_dungeon_is_fully_connected() {
    let stage = Stage::new(21, 21);
    let mut d = Dungeon::new(stage);
    d.generate();
    let w = d.stage.width;
    let h = d.stage.height;
    let mut open_cells = Vec::new();
    for y in 0..h {
        for x in 0..w {
            if passable(&d, x, y) {
                open_cells.push((x, y));
            }
        }
    }
    assert!(!open_cells.is_empty());
    let mut seen = vec![false; (w * h) as usize];
    let mut queue = vec![open_cells[0]];
    seen[(open_cells[0].1 * w + open_cells[0].0) as usize] = true;
    let mut reached = 0;
    while let Some((x, y)) = queue.pop() {
        reached += 1;
        let steps = [(0, -1), (1, 0), (0, 1), (-1, 0)];
        for (dx, dy) in steps {
            let (nx, ny) = (x + dx, y + dy);
            if nx >= 0 && nx < w && ny >= 0 && ny < h && passable(&d, nx, ny) {
                let idx = (ny * w + nx) as usize;
                if !seen[idx] {
                    seen[idx] = true;
                    queue.push((nx, ny));
                }
            }
        }
    }
    assert_eq!(reached, open_cells.len());
    assert!(is_fully_connected(&d.stage));
}

#[test]
fn connectivity_checker_detects_split_and_joined_grids() {
    let mut s = Stage::new(5, 3);
    assert!(is_fully_connected(&s));
    s.set(Vector(1, 1), Tile::Floor);
    assert!(is_fully_connected(&s));
    s.set(Vector(3, 1), Tile::Floor);
    assert!(!is_fully_connected(&s));
    s.set(Vector(2, 1), Tile::ClosedDoor);
    assert!(is_fully_connected(&s));
}

#[test]
fn no_dead_ends_after_generation() {
    let stage = Stage::new(21, 21);
    let mut d = Dungeon::new(stage);
    d.generate();
    for y in 1..d.stage.height - 1 {
        for x in 1..d.stage.width - 1 {
            if passable(&d, x, y) {
                let mut exits = 0;
                if passable(&d, x, y - 1) {
                    exits += 1;
                }
                if passable(&d, x + 1, y) {
                    exits += 1;
                }
                if passable(&d, x, y + 1) {
                    exits += 1;
                }
                if passable(&d, x - 1, y) {
                    exits += 1;
                }
                assert_ne!(exits, 1);
            }
        }
    }
}

#[test]
fn maze_carving_stays_on_odd_lattice() {
    let stage = Stage::new(9, 9);
    let mut d = Dungeon::new(stage);
    d.grow_maze(Vector(1, 1));
    assert_eq!(d.get_tile(Vector(1, 1)), Tile::Floor);
    for y in 0..9 {
        for x in 0..9 {
            if passable(&d, x, y) {
                // a carved cell is an odd-lattice cell or the midpoint of a
                // two-cell step; it is never even-aligned on both axes
                assert!(!(x % 2 == 0 && y % 2 == 0));
            }
        }
    }
}

#[test]
fn pruning_is_idempotent() {
    let stage = Stage::new(17, 17);
    let mut d = Dungeon::new(stage);
    d.generate();
    let before: Vec<Tile> = d.stage.tiles.clone();
    d.remove_dead_ends();
    assert_eq!(d.stage.tiles, before);
}

#[test]
fn maze_alone_on_five_grid_carves_seed_and_keeps_border() {
    let stage = Stage::new(5, 5);
    let mut d = Dungeon::new(stage);
    d.grow_maze(Vector(1, 1));
    assert_eq!(d.get_tile(Vector(1, 1)), Tile::Floor);
    for y in 0..5 {
        for x in 0..5 {
            if x == 0 || x == 4 || y == 0 || y == 4 {
                assert_eq!(d.get_tile(Vector(x, y)), Tile::Wall);
            }
        }
    }
}

#[test]
fn lone_connector_is_carved_and_regions_merge() {
    let stage = Stage::new(5, 3);
    let mut d = Dungeon::new(stage);
    d.start_region();
    d.carve(Vector(1, 1), Tile::Floor);
    d.start_region();
    d.carve(Vector(3, 1), Tile::Floor);
    d.connect_regions();
    assert_ne!(d.get_tile(Vector(2, 1)), Tile::Wall);
    assert_eq!(d.get_tile(Vector(1, 1)), Tile::Floor);
    assert_eq!(d.get_tile(Vector(3, 1)), Tile::Floor);
}

#[test]
fn minimal_grid_completes_generation() {
    let stage = Stage::new(1, 1);
    let mut d = Dungeon::new(stage);
    d.generate();
    assert_eq!(d.stage.width, 1);
    assert_eq!(d.stage.height, 1);
    assert_eq!(d.stage.get(Vector(0, 0)), Some(Tile::Wall));
}

#[test]
fn can_carve_looks_two_ahead_and_respects_bounds() {
    let stage = Stage::new(5, 5);
    let mut d = Dungeon::new(stage);
    // three steps left of (1,1) leaves the grid
    assert!(!d.can_carve(Vector(1, 1), Vector(-1, 0)));
    assert!(!d.can_carve(Vector(1, 1), Vector(0, -1)));
    // two steps right of (1,1) is still wall and three steps stay inside
    assert!(d.can_carve(Vector(1, 1), Vector(1, 0)));
    assert!(d.can_carve(Vector(1, 1), Vector(0, 1)));
    // once the destination is carved, the direction closes
    d.set_tile(Vector(3, 1), Tile::Floor);
    assert!(!d.can_carve(Vector(1, 1), Vector(1, 0)));
}

#[test]
fn set_tile_writes_in_bounds_and_ignores_out_of_bounds() {
    let stage = Stage::new(3, 3);
    let mut d = Dungeon::new(stage);
    d.set_tile(Vector(1, 1), Tile::OpenDoor);
    assert_eq!(d.get_tile(Vector(1, 1)), Tile::OpenDoor);
    d.set_tile(Vector(9, 9), Tile::Floor);
    assert_eq!(d.get_tile(Vector(2, 2)), Tile::Wall);
}
