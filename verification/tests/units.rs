use dungeon::geometry::{Rectangle, Vector};
use dungeon::stage::{Stage, Tile};

#[test]
fn tile_glyphs() {
    assert_eq!(Tile::Wall.to_char(), ' ');
    assert_eq!(Tile::OpenDoor.to_char(), '/');
    assert_eq!(Tile::ClosedDoor.to_char(), '+');
    assert_eq!(Tile::Floor.to_char(), '█');
}

#[test]
fn stage_starts_walled_and_bounds_checked() {
    let s = Stage::new(3, 3);
    assert!(s.contains(Vector(0, 0)));
    assert!(s.contains(Vector(2, 2)));
    assert!(!s.contains(Vector(3, 0)));
    assert!(!s.contains(Vector(0, -1)));
    assert_eq!(s.get(Vector(1, 1)), Some(Tile::Wall));
    assert_eq!(s.get(Vector(3, 1)), None);
    assert_eq!(s.get(Vector(-1, 0)), None);
}

#[test]
fn stage_set_writes_in_bounds_and_ignores_out_of_bounds() {
    let mut s = Stage::new(3, 3);
    s.set(Vector(1, 2), Tile::Floor);
    assert_eq!(s.get(Vector(1, 2)), Some(Tile::Floor));
    assert_eq!(s.get(Vector(0, 0)), Some(Tile::Wall));
    s.set(Vector(5, 5), Tile::Floor);
    for y in 0..3 {
        for x in 0..3 {
            if (x, y) != (1, 2) {
                assert_eq!(s.get(Vector(x, y)), Some(Tile::Wall));
            }
        }
    }
}

#[test]
fn vector_arithmetic() {
    let a = Vector(2, -3);
    let b = Vector(-1, 4);
    assert_eq!(a.add(b), Vector(1, 1));
    assert_eq!(a.sub(b), Vector(3, -7));
    assert_eq!(a.mul(3), Vector(6, -9));
    assert_eq!(a.abs(), 5);
    assert_eq!(Vector(0, 0).abs(), 0);
}

#[test]
fn rectangle_edges() {
    let r = Rectangle { x: 2, y: 3, w: 4, h: 5 };
    assert_eq!(r.top(), 3);
    assert_eq!(r.bottom(), 8);
    assert_eq!(r.left(), 2);
    assert_eq!(r.right(), 6);
}

#[test]
fn rectangle_distance_overlap_touch_and_gap() {
    let a = Rectangle { x: 1, y: 1, w: 3, h: 3 };
    let overlapping = Rectangle { x: 2, y: 2, w: 3, h: 3 };
    assert_eq!(a.distance_to(overlapping), -1);
    let touching = Rectangle { x: 4, y: 1, w: 3, h: 3 };
    assert_eq!(a.distance_to(touching), 0);
    let beside = Rectangle { x: 6, y: 1, w: 3, h: 3 };
    assert_eq!(a.distance_to(beside), 2);
    assert_eq!(beside.distance_to(a), 2);
    let diagonal = Rectangle { x: 5, y: 6, w: 2, h: 2 };
    let b = Rectangle { x: 1, y: 1, w: 2, h: 2 };
    assert_eq!(b.distance_to(diagonal), 5);
}
