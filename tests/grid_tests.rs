use bashing_bytes::common::{apply_horizontal_tunnel, apply_room_to_map, apply_vertical_tunnel};
use bashing_bytes::grid::{GridMap, Rect, TileKind, BLOCKED, REVEALED, VISIBLE};

#[test]
fn new_map_is_all_wall() {
    let m = GridMap::new(5, 4, 2);
    assert_eq!(m.width, 5);
    assert_eq!(m.height, 4);
    assert_eq!(m.depth, 2);
    assert_eq!(m.tiles.len(), 20);
    assert_eq!(m.status.len(), 20);
    assert_eq!(m.tile_content.len(), 20);
    assert!(m.tiles.iter().all(|t| *t == TileKind::Wall));
}

#[test]
fn index_round_trip_for_every_tile() {
    let m = GridMap::new(7, 5, 1);
    for y in 0..5 {
        for x in 0..7 {
            let idx = m.xy_idx(x, y);
            assert_eq!(idx, (y * 7 + x) as usize);
            assert_eq!(m.idx_xy(idx), (x, y));
        }
    }
}

#[test]
fn index_of_corner_tiles() {
    let m = GridMap::new(64, 64, 1);
    assert_eq!(m.xy_idx(0, 0), 0);
    assert_eq!(m.xy_idx(63, 0), 63);
    assert_eq!(m.xy_idx(0, 1), 64);
    assert_eq!(m.xy_idx(63, 63), 4095);
    assert_eq!(m.idx_xy(4095), (63, 63));
}

#[test]
fn walkable_needs_open_unblocked_tile() {
    let mut m = GridMap::new(3, 1, 1);
    m.tiles[1] = TileKind::Floor;
    m.tiles[2] = TileKind::DownStairs;
    assert!(!m.is_walkable(0));
    assert!(m.is_walkable(1));
    assert!(m.is_walkable(2));
    m.set_status(1, BLOCKED);
    assert!(!m.is_walkable(1));
    m.clear_status(1, BLOCKED);
    assert!(m.is_walkable(1));
}

#[test]
fn status_flags_set_and_clear_independently() {
    let mut m = GridMap::new(2, 2, 1);
    m.set_status(3, VISIBLE);
    m.set_status(3, REVEALED);
    assert!(m.has_status(3, VISIBLE));
    assert!(m.has_status(3, REVEALED));
    assert!(!m.has_status(3, BLOCKED));
    m.clear_status(3, VISIBLE);
    assert!(!m.has_status(3, VISIBLE));
    assert!(m.has_status(3, REVEALED));
    assert_eq!(m.status[3], REVEALED);
    assert_eq!(m.status[0], 0);
}

#[test]
fn rect_center_and_intersection() {
    let a = Rect::new(2, 3, 6, 4);
    assert_eq!((a.x1, a.y1, a.x2, a.y2), (2, 3, 8, 7));
    assert_eq!(a.center(), (5, 5));
    let touching = Rect::new(8, 3, 4, 4);
    assert!(a.intersects(&touching));
    let apart = Rect::new(9, 3, 4, 4);
    assert!(!a.intersects(&apart));
    assert!(!apart.intersects(&a));
    let west = Rect::new(-5, -4, 2, 1);
    assert_eq!(west.center(), (-4, -3));
    let odd = Rect::new(-4, 0, 1, 1);
    assert_eq!(odd.center(), (-3, 0));
}

#[test]
fn room_carves_only_its_inside() {
    let mut m = GridMap::new(10, 10, 1);
    let room = Rect::new(1, 1, 4, 3);
    apply_room_to_map(&mut m, &room);
    for y in 0..10 {
        for x in 0..10 {
            let inside = x >= 2 && x <= 4 && y >= 2 && y <= 3;
            let idx = m.xy_idx(x, y);
            let expect = if inside { TileKind::Floor } else { TileKind::Wall };
            assert_eq!(m.tiles[idx], expect, "tile ({}, {})", x, y);
        }
    }
}

#[test]
fn tunnels_carve_both_ends_in_either_order() {
    let mut m = GridMap::new(10, 10, 1);
    apply_horizontal_tunnel(&mut m, 7, 2, 4);
    for x in 0..10 {
        let expect = if (2..=7).contains(&x) { TileKind::Floor } else { TileKind::Wall };
        assert_eq!(m.tiles[m.xy_idx(x, 4)], expect);
    }
    apply_vertical_tunnel(&mut m, 1, 3, 5);
    for y in 0..10 {
        let expect = if (1..=4).contains(&y) { TileKind::Floor } else { TileKind::Wall };
        assert_eq!(m.tiles[m.xy_idx(5, y)], expect, "row {}", y);
    }
    assert_eq!(m.tiles.iter().filter(|t| **t == TileKind::Floor).count(), 6 + 3);
}
