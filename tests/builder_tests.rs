use bashing_bytes::builder::{
    build_cellular_regions, build_level, build_rooms_and_corridors, builder_for_depth,
    gen_voronoi_regions, smooth, BuildResult, BuilderKind,
};
use bashing_bytes::common::{cull_and_set_exit, distance_field, MAX_STEPS};
use bashing_bytes::grid::{GridMap, TileKind};
use rltk::RandomNumberGenerator;
use std::collections::VecDeque;

fn open(t: TileKind) -> bool {
    t != TileKind::Wall
}

/// Plain breadth-first distances over open tiles, for checking.
fn bfs(tiles: &[TileKind], w: usize, start: usize) -> Vec<Option<u32>> {
    let n = tiles.len();
    let mut d = vec![None; n];
    d[start] = Some(0);
    let mut q = VecDeque::new();
    q.push_back(start);
    while let Some(i) = q.pop_front() {
        let di = d[i].unwrap();
        let mut nb = Vec::new();
        if (i + 1) % w != 0 && i + 1 < n {
            nb.push(i + 1);
        }
        if i % w != 0 {
            nb.push(i - 1);
        }
        if i + w < n {
            nb.push(i + w);
        }
        if i >= w {
            nb.push(i - w);
        }
        for j in nb {
            if open(tiles[j]) && d[j].is_none() {
                d[j] = Some(di + 1);
                q.push_back(j);
            }
        }
    }
    d
}

fn map_from(rows: &[&str]) -> GridMap {
    let h = rows.len() as i32;
    let w = rows[0].len() as i32;
    let mut m = GridMap::new(w, h, 1);
    for (y, row) in rows.iter().enumerate() {
        for (x, c) in row.chars().enumerate() {
            let idx = m.xy_idx(x as i32, y as i32);
            m.tiles[idx] = match c {
                '.' => TileKind::Floor,
                '>' => TileKind::DownStairs,
                _ => TileKind::Wall,
            };
        }
    }
    m
}

fn check_level(r: &BuildResult) {
    let w = r.map.width as usize;
    let start = r.map.xy_idx(r.start_x, r.start_y);
    assert!(open(r.map.tiles[start]));
    let d = bfs(&r.map.tiles, w, start);
    let mut stairs = Vec::new();
    let mut far = 0;
    for (i, t) in r.map.tiles.iter().enumerate() {
        if open(*t) {
            let di = d[i].expect("every open tile is reachable from the start");
            assert!(di <= MAX_STEPS);
            far = far.max(di);
        }
        if *t == TileKind::DownStairs {
            stairs.push(i);
        }
    }
    assert_eq!(stairs.len(), 1);
    assert_eq!(d[stairs[0]], Some(far));
    let mut seen = std::collections::HashSet::new();
    for &p in &r.spawn_plan {
        assert_eq!(r.map.tiles[p], TileKind::Floor);
        assert_ne!(p, start);
        assert!(seen.insert(p));
    }
}

#[test]
fn distance_field_on_a_corridor() {
    let m = map_from(&["#####", "#...#", "###.#", "#...#", "#####"]);
    let start = m.xy_idx(1, 1);
    let d = distance_field(&m.tiles, 5, start, 100);
    assert_eq!(d[m.xy_idx(1, 1)], Some(0));
    assert_eq!(d[m.xy_idx(3, 1)], Some(2));
    assert_eq!(d[m.xy_idx(3, 2)], Some(3));
    assert_eq!(d[m.xy_idx(1, 3)], Some(6));
    assert_eq!(d[m.xy_idx(0, 0)], None);
    assert_eq!(d[m.xy_idx(2, 2)], None);
}

#[test]
fn distance_field_stops_at_its_budget() {
    let m = map_from(&["......"]);
    let d = distance_field(&m.tiles, 6, 0, 3);
    assert_eq!(d, vec![Some(0), Some(1), Some(2), Some(3), None, None]);
}

#[test]
fn cull_walls_off_pockets_and_places_exit_farthest() {
    let mut m = map_from(&["#######", "#..#..#", "#..#..#", "#######"]);
    let start = m.xy_idx(1, 1);
    cull_and_set_exit(&mut m, start);
    assert_eq!(m.tiles[m.xy_idx(4, 1)], TileKind::Wall);
    assert_eq!(m.tiles[m.xy_idx(5, 2)], TileKind::Wall);
    assert_eq!(m.tiles[m.xy_idx(2, 2)], TileKind::DownStairs);
    assert_eq!(m.tiles[m.xy_idx(1, 1)], TileKind::Floor);
    assert_eq!(m.tiles.iter().filter(|t| **t == TileKind::DownStairs).count(), 1);
}

#[test]
fn cull_keeps_first_of_equally_far_tiles() {
    let mut m = map_from(&["...", "..."]);
    let start = m.xy_idx(1, 0);
    cull_and_set_exit(&mut m, start);
    assert_eq!(m.tiles[m.xy_idx(0, 1)], TileKind::DownStairs);
    assert_eq!(m.tiles[m.xy_idx(2, 1)], TileKind::Floor);
}

#[test]
fn cull_on_a_lone_start_puts_the_exit_there() {
    let mut m = map_from(&["###", "###"]);
    let start = m.xy_idx(1, 1);
    cull_and_set_exit(&mut m, start);
    assert_eq!(m.tiles[start], TileKind::DownStairs);
    assert_eq!(m.tiles.iter().filter(|t| **t != TileKind::Wall).count(), 1);
}

#[test]
fn cull_replaces_stale_stairs() {
    let mut m = map_from(&[">....>"]);
    cull_and_set_exit(&mut m, 1);
    assert_eq!(m.tiles[0], TileKind::Floor);
    assert_eq!(m.tiles[5], TileKind::DownStairs);
}

#[test]
fn rooms_builder_makes_connected_levels() {
    for seed in 0..20u64 {
        let mut rng = RandomNumberGenerator::seeded(seed);
        let r = build_rooms_and_corridors(&mut rng, 64, 64, 1);
        assert!(!r.rooms.is_empty());
        assert_eq!(r.rooms[0].center(), (r.start_x, r.start_y));
        for a in 0..r.rooms.len() {
            for b in a + 1..r.rooms.len() {
                assert!(!r.rooms[a].intersects(&r.rooms[b]));
            }
        }
        check_level(&r);
    }
}

#[test]
fn rooms_builder_falls_back_to_open_floor_on_tiny_maps() {
    let mut rng = RandomNumberGenerator::seeded(3);
    let r = build_rooms_and_corridors(&mut rng, 5, 4, 1);
    assert!(r.rooms.is_empty());
    assert_eq!((r.start_x, r.start_y), (2, 2));
    assert_eq!(r.map.tiles.iter().filter(|t| **t == TileKind::Wall).count(), 0);
    check_level(&r);
}

#[test]
fn cellular_builder_makes_connected_levels() {
    for seed in 0..10u64 {
        let mut rng = RandomNumberGenerator::seeded(seed);
        let keys: Vec<i32> = (0..64 * 64).map(|i| ((i % 64) / 8 + 8 * ((i / 64) / 8)) as i32).collect();
        let r = build_cellular_regions(&mut rng, 64, 64, 2, &keys);
        let start = r.map.xy_idx(r.start_x, r.start_y);
        assert_eq!(r.map.tiles[start], TileKind::Floor);
        check_level(&r);
    }
}

#[test]
fn builder_strategy_alternates_with_depth() {
    assert_eq!(builder_for_depth(1), BuilderKind::RoomsAndCorridors);
    assert_eq!(builder_for_depth(2), BuilderKind::CellularRegions);
    assert_eq!(builder_for_depth(7), BuilderKind::RoomsAndCorridors);
    let mut rng = RandomNumberGenerator::seeded(11);
    let keys = vec![0; 64 * 64];
    let r = build_level(&mut rng, 64, 64, 4, &keys);
    assert!(r.rooms.is_empty());
    assert_eq!(r.map.depth, 4);
    check_level(&r);
}

#[test]
fn smoothing_follows_neighbour_counts() {
    let mut m = map_from(&["#####", "#...#", "#.#.#", "#...#", "#####"]);
    smooth(&mut m);
    // The centre has no wall among its eight neighbours: it becomes wall.
    assert_eq!(m.tiles[m.xy_idx(2, 2)], TileKind::Wall);
    // A corner inner tile sees six walls: it becomes wall.
    assert_eq!(m.tiles[m.xy_idx(1, 1)], TileKind::Wall);
    // An edge-middle inner tile sees four walls (three outside, the centre): floor.
    assert_eq!(m.tiles[m.xy_idx(2, 1)], TileKind::Floor);
    // The outer edge is never touched.
    assert_eq!(m.tiles[m.xy_idx(0, 0)], TileKind::Wall);
}

#[test]
fn voronoi_regions_group_inner_floor_by_key() {
    let m = map_from(&["#####", "#...#", "#.#.#", "#####"]);
    let keys = vec![
        9, 9, 9, 9, 9, //
        9, 1, 2, 1, 9, //
        9, 2, 9, 1, 9, //
        9, 9, 9, 9, 9,
    ];
    let regions = gen_voronoi_regions(&m, &keys);
    assert_eq!(regions.len(), 2);
    assert_eq!(regions[0].key, 1);
    assert_eq!(regions[0].tiles, vec![6, 8, 13]);
    assert_eq!(regions[1].key, 2);
    assert_eq!(regions[1].tiles, vec![7, 11]);
}

#[test]
fn smallest_map_that_fits_a_room_always_gets_one() {
    for seed in 0..20u64 {
        let mut rng = RandomNumberGenerator::seeded(seed);
        let r = build_rooms_and_corridors(&mut rng, 11, 11, 1);
        assert!(!r.rooms.is_empty());
        check_level(&r);
    }
}

#[test]
fn cellular_builder_on_a_tiny_map_opens_it_up() {
    let mut rng = RandomNumberGenerator::seeded(4);
    let keys = vec![0; 6];
    let r = build_cellular_regions(&mut rng, 3, 2, 2, &keys);
    let start = r.map.xy_idx(r.start_x, r.start_y);
    assert_eq!(r.map.tiles[start], TileKind::Floor);
    assert_eq!(r.map.tiles.iter().filter(|t| **t == TileKind::DownStairs).count(), 1);
    check_level(&r);
}
