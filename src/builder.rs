//! The two level builders, rooms and corridors and cellular regions, each
//! ending in the reachability pass and a spawn plan.

use crate::common::{
    apply_horizontal_tunnel, apply_room_to_map, apply_vertical_tunnel, connected_from, culled,
    cull_and_set_exit, single_farthest_exit, MAX_STEPS,
};
use crate::grid::{idx_of, is_open, xy_of, GridMap, Rect, TileKind, MAX_TILES};
use crate::rng::{rng_range, roll_dice};
use rltk::RandomNumberGenerator;
use vstd::prelude::*;

verus! {

/// Attempts at placing a room.
pub const MAX_ROOMS: i32 = 30;

pub const MIN_ROOM_SIZE: i32 = 6;

pub const MAX_ROOM_SIZE: i32 = 10;

/// Base number of spawn attempts per room or region.
pub const MAX_SPAWNS: i32 = 4;

/// Deepest level whose depth still raises the number of spawns.
pub const SPAWN_DEPTH_CAP: i32 = 20;

/// Smoothing passes of the cellular builder.
pub const SMOOTHING_PASSES: u32 = 15;

/// Chance in a hundred that the cellular builder starts a tile as wall.
pub const WALL_CHANCE: i32 = 55;

/// The generation strategies.
#[derive(PartialEq, Eq, Structural, Clone, Copy, Debug)]
pub enum BuilderKind {
    RoomsAndCorridors,
    CellularRegions,
}

pub open spec fn builder_kind_for(depth: i32) -> BuilderKind {
    if depth % 2 == 0 {
        BuilderKind::CellularRegions
    } else {
        BuilderKind::RoomsAndCorridors
    }
}

/// Odd depths are rooms and corridors, even depths cellular regions.
pub fn builder_for_depth(depth: i32) -> (k: BuilderKind)
    ensures
        k == builder_kind_for(depth),
{
    if depth % 2 == 0 {
        BuilderKind::CellularRegions
    } else {
        BuilderKind::RoomsAndCorridors
    }
}

/// Tiles on which the spawner may place something: distinct floor tiles,
/// none of them the start.
pub open spec fn plan_ok(tiles: Seq<TileKind>, s: int, plan: Seq<usize>) -> bool {
    &&& plan.len() <= tiles.len()
    &&& forall|k: int|
        0 <= k < plan.len() ==> {
            &&& (#[trigger] plan[k]) < tiles.len()
            &&& tiles[plan[k] as int] == TileKind::Floor
            &&& plan[k] != s
        }
    &&& forall|a: int, b: int| 0 <= a < b < plan.len() ==> #[trigger] plan[a] != #[trigger] plan[b]
}

/// What a builder hands back: the map, the player's start, the rooms it
/// carved (none for the cellular builder) and the spawn plan.
pub struct BuildResult {
    pub map: GridMap,
    pub start_x: i32,
    pub start_y: i32,
    pub rooms: Vec<Rect>,
    pub spawn_plan: Vec<usize>,
}

impl BuildResult {
    pub open spec fn start_idx(&self) -> int {
        idx_of(self.map.width as int, self.start_x as int, self.start_y as int)
    }

    /// A finished level: connected, with one farthest exit and a valid plan.
    pub open spec fn valid(&self, width: i32, height: i32, depth: i32) -> bool {
        &&& self.map.wf()
        &&& self.map.width == width
        &&& self.map.height == height
        &&& self.map.depth == depth
        &&& self.map.in_bounds(self.start_x as int, self.start_y as int)
        &&& self.map.tiles@[self.start_idx()] != TileKind::Wall
        &&& connected_from(self.map.tiles@, width as int, self.start_idx(), MAX_STEPS as nat)
        &&& single_farthest_exit(self.map.tiles@, width as int, self.start_idx(), MAX_STEPS as nat)
        &&& plan_ok(self.map.tiles@, self.start_idx(), self.spawn_plan@)
    }
}

/// Adds `idx` to the plan when it is a floor tile other than the start that
/// the plan does not hold yet, while the plan has fewer entries than the map has tiles.
fn add_spawn(map: &GridMap, start: usize, plan: &mut Vec<usize>, idx: usize)
    requires
        map.wf(),
        idx < map.size(),
        plan_ok(map.tiles@, start as int, old(plan)@),
    ensures
        plan_ok(map.tiles@, start as int, final(plan)@),
        final(plan)@ == if map.tiles@[idx as int] == TileKind::Floor && idx != start
            && !old(plan)@.contains(idx) && old(plan)@.len() < map.size() {
            old(plan)@.push(idx)
        } else {
            old(plan)@
        },
{
    let floor = match map.tiles[idx] {
        TileKind::Floor => true,
        _ => false,
    };
    if !floor || idx == start || plan.len() >= map.tiles.len() {
        return ;
    }
    let mut k: usize = 0;
    while k < plan.len()
        invariant
            k <= plan@.len(),
            plan@ == old(plan)@,
            plan_ok(map.tiles@, start as int, plan@),
            forall|m: int| 0 <= m < k ==> plan@[m] != idx,
        decreases plan@.len() - k,
    {
        if plan[k] == idx {
            assert(old(plan)@.contains(idx));
            return ;
        }
        k = k + 1;
    }
    plan.push(idx);
}

/// Number of spawn attempts for one room or region at `depth`.
fn spawn_count(rng: &mut RandomNumberGenerator, depth: i32) -> (r: i32)
    ensures
        r <= MAX_SPAWNS + SPAWN_DEPTH_CAP,
{
    let bonus = if depth < 1 {
        0
    } else if depth > SPAWN_DEPTH_CAP {
        SPAWN_DEPTH_CAP - 1
    } else {
        depth - 1
    };
    roll_dice(rng, 1, MAX_SPAWNS + 3) + bonus - 3
}

/// Plans spawns on random tiles inside `room`.
fn plan_room(
    rng: &mut RandomNumberGenerator,
    map: &GridMap,
    start: usize,
    room: &Rect,
    plan: &mut Vec<usize>,
)
    requires
        map.wf(),
        0 <= room.x1,
        room.x1 + 2 <= room.x2 < map.width,
        0 <= room.y1,
        room.y1 + 2 <= room.y2 < map.height,
        plan_ok(map.tiles@, start as int, old(plan)@),
    ensures
        plan_ok(map.tiles@, start as int, final(plan)@),
{
    let num = spawn_count(rng, map.depth);
    let mut i: i32 = 0;
    while i < num
        invariant
            map.wf(),
            0 <= room.x1,
            room.x1 + 2 <= room.x2 < map.width,
            0 <= room.y1,
            room.y1 + 2 <= room.y2 < map.height,
            plan_ok(map.tiles@, start as int, plan@),
        decreases num - i,
    {
        let x = rng_range(rng, room.x1 + 1, room.x2);
        let y = rng_range(rng, room.y1 + 1, room.y2);
        let idx = map.xy_idx(x, y);
        add_spawn(map, start, plan, idx);
        i = i + 1;
    }
}

/// Plans spawns on random tiles of a region.
fn plan_region(
    rng: &mut RandomNumberGenerator,
    map: &GridMap,
    start: usize,
    region: &Vec<usize>,
    plan: &mut Vec<usize>,
)
    requires
        map.wf(),
        forall|k: int| 0 <= k < region@.len() ==> (#[trigger] region@[k]) < map.size(),
        region@.len() <= i32::MAX,
        plan_ok(map.tiles@, start as int, old(plan)@),
    ensures
        plan_ok(map.tiles@, start as int, final(plan)@),
{
    if region.len() == 0 {
        return ;
    }
    let len = region.len() as i32;
    let num = spawn_count(rng, map.depth);
    let mut i: i32 = 0;
    while i < num
        invariant
            map.wf(),
            len == region@.len(),
            len >= 1,
            forall|k: int| 0 <= k < region@.len() ==> (#[trigger] region@[k]) < map.size(),
            plan_ok(map.tiles@, start as int, plan@),
        decreases num - i,
    {
        let k = rng_range(rng, 0, len);
        add_spawn(map, start, plan, region[k as usize]);
        i = i + 1;
    }
}

/// Rooms placed by the rooms builder lie inside the map, away from its edge.
pub open spec fn room_fits(room: Rect, width: int, height: int) -> bool {
    &&& 0 <= room.x1
    &&& room.x1 + 2 <= room.x2 < width
    &&& 0 <= room.y1
    &&& room.y1 + 2 <= room.y2 < height
}

/// Runs the reachability pass from the start and plans no spawns yet.
fn finish_map(map: &mut GridMap, start_x: i32, start_y: i32) -> (start: usize)
    requires
        old(map).wf(),
        old(map).in_bounds(start_x as int, start_y as int),
    ensures
        final(map).wf(),
        final(map).width == old(map).width,
        final(map).height == old(map).height,
        final(map).depth == old(map).depth,
        start == idx_of(old(map).width as int, start_x as int, start_y as int),
        start < old(map).size(),
        final(map).tiles@[start as int] != TileKind::Wall,
        culled(old(map).tiles@, final(map).tiles@, old(map).width as int, start as int, MAX_STEPS as nat),
        connected_from(final(map).tiles@, old(map).width as int, start as int, MAX_STEPS as nat),
        single_farthest_exit(
            final(map).tiles@,
            old(map).width as int,
            start as int,
            MAX_STEPS as nat,
        ),
{
    let start = map.xy_idx(start_x, start_y);
    cull_and_set_exit(map, start);
    proof {
        reveal(culled);
        crate::common::lemma_reaches_start(
            old(map).tiles@,
            old(map).width as int,
            start as int,
            MAX_STEPS as nat,
        );
    }
    start
}

/// Rooms and corridors: rooms of random size and place that do not overlap
/// earlier ones, each joined to the one before by an L-shaped corridor. The
/// player starts in the centre of the first room; with no room placed the
/// whole map is floor and the player starts in its centre.
pub fn build_rooms_and_corridors(
    rng: &mut RandomNumberGenerator,
    width: i32,
    height: i32,
    depth: i32,
) -> (r: BuildResult)
    requires
        1 <= width,
        1 <= height,
        width * height <= MAX_TILES,
    ensures
        r.valid(width, height, depth),
        forall|k: int| 0 <= k < r.rooms@.len() ==> room_fits(#[trigger] r.rooms@[k], width as int, height as int),
        r.rooms@.len() > 0 ==> (r.start_x as int, r.start_y as int) == r.rooms@[0].center_spec(),
        r.rooms@.len() == 0 ==> r.start_x == width / 2 && r.start_y == height / 2,
        width >= MAX_ROOM_SIZE + 1 && height >= MAX_ROOM_SIZE + 1 ==> r.rooms@.len() > 0,
        forall|a: int, b: int|
            0 <= a < b < r.rooms@.len() ==> !(#[trigger] r.rooms@[a]).overlaps(#[trigger] r.rooms@[b]),
{
    let mut map = GridMap::new(width, height, depth);
    let mut rooms: Vec<Rect> = Vec::new();
    let mut attempt: i32 = 0;
    while attempt < MAX_ROOMS
        invariant
            map.wf(),
            map.width == width,
            map.height == height,
            map.depth == depth,
            forall|k: int| 0 <= k < rooms@.len() ==> room_fits(#[trigger] rooms@[k], width as int, height as int),
            forall|a: int, b: int|
                0 <= a < b < rooms@.len() ==> !(#[trigger] rooms@[a]).overlaps(#[trigger] rooms@[b]),
            attempt >= 1 && width >= MAX_ROOM_SIZE + 1 && height >= MAX_ROOM_SIZE + 1 ==> rooms@.len() > 0,
        decreases MAX_ROOMS - attempt,
    {
        let w = rng_range(rng, MIN_ROOM_SIZE, MAX_ROOM_SIZE);
        let h = rng_range(rng, MIN_ROOM_SIZE, MAX_ROOM_SIZE);
        if w + 2 <= width && h + 2 <= height {
            let x = roll_dice(rng, 1, width - w - 1) - 1;
            let y = roll_dice(rng, 1, height - h - 1) - 1;
            let new_room = Rect::new(x, y, w, h);
            let mut ok = true;
            let mut k: usize = 0;
            while k < rooms.len()
                invariant
                    k <= rooms@.len(),
                    rooms@.len() == 0 ==> ok,
                    ok ==> forall|q: int| 0 <= q < k ==> !new_room.overlaps(#[trigger] rooms@[q]),
                decreases rooms@.len() - k,
            {
                if new_room.intersects(&rooms[k]) {
                    ok = false;
                }
                k = k + 1;
            }
            if ok {
                apply_room_to_map(&mut map, &new_room);
                if rooms.len() > 0 {
                    let (new_x, new_y) = new_room.center();
                    let (prev_x, prev_y) = rooms[rooms.len() - 1].center();
                    if rng_range(rng, 0, 2) == 1 {
                        apply_horizontal_tunnel(&mut map, prev_x, new_x, prev_y);
                        apply_vertical_tunnel(&mut map, prev_y, new_y, new_x);
                    } else {
                        apply_vertical_tunnel(&mut map, prev_y, new_y, prev_x);
                        apply_horizontal_tunnel(&mut map, prev_x, new_x, new_y);
                    }
                }
                rooms.push(new_room);
            }
        }
        attempt = attempt + 1;
    }
    let (start_x, start_y) = if rooms.len() > 0 {
        rooms[0].center()
    } else {
        apply_room_to_map(&mut map, &Rect { x1: -1, y1: -1, x2: width, y2: height });
        (width / 2, height / 2)
    };
    let start = finish_map(&mut map, start_x, start_y);
    let mut plan: Vec<usize> = Vec::new();
    let mut k: usize = 1;
    while k < rooms.len()
        invariant
            map.wf(),
            map.width == width,
            map.height == height,
            forall|m: int| 0 <= m < rooms@.len() ==> room_fits(#[trigger] rooms@[m], width as int, height as int),
            plan_ok(map.tiles@, start as int, plan@),
        decreases rooms@.len() - k,
    {
        plan_room(rng, &map, start, &rooms[k], &mut plan);
        k = k + 1;
    }
    BuildResult { map, start_x, start_y, rooms, spawn_plan: plan }
}

/// Tile `i` lies off the map's outer edge.
pub open spec fn is_interior(w: int, h: int, i: int) -> bool {
    let (x, y) = xy_of(w, i);
    1 <= x < w - 1 && 1 <= y < h - 1
}

pub open spec fn wall_at(tiles: Seq<TileKind>, i: int) -> int {
    if tiles[i] == TileKind::Wall {
        1
    } else {
        0
    }
}

/// Walls among the eight tiles around `i`.
pub open spec fn walls_around(tiles: Seq<TileKind>, w: int, i: int) -> int {
    wall_at(tiles, i - w - 1) + wall_at(tiles, i - w) + wall_at(tiles, i - w + 1) + wall_at(
        tiles,
        i - 1,
    ) + wall_at(tiles, i + 1) + wall_at(tiles, i + w - 1) + wall_at(tiles, i + w) + wall_at(
        tiles,
        i + w + 1,
    )
}

/// One smoothing pass at tile `i`: an inner tile becomes wall when crowded by
/// walls or cut off from them entirely, floor otherwise.
pub open spec fn smoothed(tiles: Seq<TileKind>, w: int, h: int, i: int) -> TileKind {
    if is_interior(w, h, i) {
        let c = walls_around(tiles, w, i);
        if c > 4 || c == 0 {
            TileKind::Wall
        } else {
            TileKind::Floor
        }
    } else {
        tiles[i]
    }
}

/// An inner tile's eight neighbours lie on the map.
proof fn lemma_interior_bounds(w: int, h: int, i: int)
    requires
        w >= 1,
        h >= 1,
        0 <= i < w * h,
        is_interior(w, h, i),
    ensures
        i - w - 1 >= 0,
        i + w + 1 < w * h,
{
    let x = i % w;
    let y = i / w;
    vstd::arithmetic::div_mod::lemma_fundamental_div_mod(i, w);
    assert(w * y >= w) by (nonlinear_arith)
        requires
            y >= 1,
            w >= 1,
    ;
    assert(w * y + w <= w * h - w) by (nonlinear_arith)
        requires
            y <= h - 2,
            w >= 1,
    ;
}

fn is_wall(tiles: &Vec<TileKind>, i: usize) -> (r: usize)
    requires
        i < tiles@.len(),
    ensures
        r == wall_at(tiles@, i as int),
{
    match tiles[i] {
        TileKind::Wall => 1,
        _ => 0,
    }
}

/// One smoothing pass over every inner tile, all read from the map as it was.
pub fn smooth(map: &mut GridMap)
    requires
        old(map).wf(),
    ensures
        final(map).wf(),
        final(map).width == old(map).width,
        final(map).height == old(map).height,
        final(map).depth == old(map).depth,
        final(map).tiles@.len() == old(map).tiles@.len(),
        forall|i: int|
            0 <= i < old(map).size() ==> #[trigger] final(map).tiles@[i] == smoothed(
                old(map).tiles@,
                old(map).width as int,
                old(map).height as int,
                i,
            ),
{
    let n = map.tiles.len();
    let w = map.width as usize;
    let h = map.height as usize;
    let mut next: Vec<TileKind> = Vec::new();
    let mut i: usize = 0;
    while i < n
        invariant
            map.wf(),
            *map == *old(map),
            n == map.size(),
            w == map.width,
            h == map.height,
            i <= n,
            next@.len() == i,
            forall|k: int|
                0 <= k < i ==> #[trigger] next@[k] == smoothed(map.tiles@, w as int, h as int, k),
        decreases n - i,
    {
        let x = i % w;
        let y = i / w;
        if 1 <= x && x + 1 < w && 1 <= y && y + 1 < h {
            proof {
                lemma_interior_bounds(w as int, h as int, i as int);
            }
            let c = is_wall(&map.tiles, i - w - 1) + is_wall(&map.tiles, i - w) + is_wall(
                &map.tiles,
                i - w + 1,
            ) + is_wall(&map.tiles, i - 1) + is_wall(&map.tiles, i + 1) + is_wall(
                &map.tiles,
                i + w - 1,
            ) + is_wall(&map.tiles, i + w) + is_wall(&map.tiles, i + w + 1);
            if c > 4 || c == 0 {
                next.push(TileKind::Wall);
            } else {
                next.push(TileKind::Floor);
            }
        } else {
            next.push(map.tiles[i]);
        }
        i = i + 1;
    }
    map.tiles = next;
}

/// Starts every inner tile as wall or floor at random; the edge is left as
/// it was.
fn seed_noise(rng: &mut RandomNumberGenerator, map: &mut GridMap)
    requires
        old(map).wf(),
    ensures
        final(map).wf(),
        final(map).width == old(map).width,
        final(map).height == old(map).height,
        final(map).depth == old(map).depth,
        forall|i: int|
            0 <= i < old(map).size() && !is_interior(
                old(map).width as int,
                old(map).height as int,
                i,
            ) ==> #[trigger] final(map).tiles@[i] == old(map).tiles@[i],
{
    let n = map.tiles.len();
    let w = map.width as usize;
    let h = map.height as usize;
    let mut i: usize = 0;
    while i < n
        invariant
            map.wf(),
            map.width == old(map).width,
            map.height == old(map).height,
            map.depth == old(map).depth,
            n == map.size(),
            w == map.width,
            h == map.height,
            forall|k: int|
                0 <= k < n && !is_interior(w as int, h as int, k) ==> #[trigger] map.tiles@[k]
                    == old(map).tiles@[k],
        decreases n - i,
    {
        let x = i % w;
        let y = i / w;
        if 1 <= x && x + 1 < w && 1 <= y && y + 1 < h {
            let roll = roll_dice(rng, 1, 100);
            if roll > WALL_CHANCE {
                map.tiles.set(i, TileKind::Floor);
            } else {
                map.tiles.set(i, TileKind::Wall);
            }
        }
        i = i + 1;
    }
}

/// The floor tiles of one Voronoi cell of the noise field.
pub struct Region {
    pub key: i32,
    pub tiles: Vec<usize>,
}

/// `regions` groups the inner floor tiles of `tiles` by their cell key, in
/// order of first appearance, each group in increasing tile order.
pub open spec fn is_region_split(
    tiles: Seq<TileKind>,
    w: int,
    h: int,
    keys: Seq<i32>,
    regions: Seq<Region>,
) -> bool {
    &&& forall|r: int|
        0 <= r < regions.len() ==> (#[trigger] regions[r]).tiles@.len() > 0 && forall|m: int|
            0 <= m < regions[r].tiles@.len() ==> {
                let t = #[trigger] regions[r].tiles@[m] as int;
                &&& 0 <= t < tiles.len()
                &&& is_interior(w, h, t)
                &&& tiles[t] == TileKind::Floor
                &&& keys[t] == regions[r].key
            }
    &&& forall|r1: int, r2: int|
        0 <= r1 < r2 < regions.len() ==> (#[trigger] regions[r1]).key != (#[trigger] regions[r2]).key
    &&& forall|r: int, m1: int, m2: int|
        0 <= r < regions.len() && 0 <= m1 < m2 < regions[r].tiles@.len() ==> (#[trigger] regions[r].tiles@[m1])
            < (#[trigger] regions[r].tiles@[m2])
    &&& forall|i: int|
        0 <= i < tiles.len() && is_interior(w, h, i) && #[trigger] tiles[i] == TileKind::Floor
            ==> exists|r: int|
            0 <= r < regions.len() && (#[trigger] regions[r]).key == keys[i]
                && regions[r].tiles@.contains(i as usize)
}

/// Groups the inner floor tiles into regions by the cell key of the noise
/// field at each tile.
pub fn gen_voronoi_regions(map: &GridMap, cell_keys: &Vec<i32>) -> (regions: Vec<Region>)
    requires
        map.wf(),
        cell_keys@.len() == map.size(),
    ensures
        is_region_split(map.tiles@, map.width as int, map.height as int, cell_keys@, regions@),
{
    let n = map.tiles.len();
    let w = map.width as usize;
    let h = map.height as usize;
    let mut regions: Vec<Region> = Vec::new();
    let mut i: usize = 0;
    while i < n
        invariant
            map.wf(),
            n == map.size(),
            w == map.width,
            h == map.height,
            i <= n,
            cell_keys@.len() == n,
            forall|r: int|
                0 <= r < regions@.len() ==> (#[trigger] regions@[r]).tiles@.len() > 0 && forall|m: int|
                    0 <= m < regions@[r].tiles@.len() ==> {
                        let t = #[trigger] regions@[r].tiles@[m] as int;
                        &&& 0 <= t < i
                        &&& is_interior(w as int, h as int, t)
                        &&& map.tiles@[t] == TileKind::Floor
                        &&& cell_keys@[t] == regions@[r].key
                    },
            forall|r1: int, r2: int|
                0 <= r1 < r2 < regions@.len() ==> (#[trigger] regions@[r1]).key != (#[trigger] regions@[r2]).key,
            forall|r: int, m1: int, m2: int|
                0 <= r < regions@.len() && 0 <= m1 < m2 < regions@[r].tiles@.len() ==> (#[trigger] regions@[r].tiles@[m1])
                    < (#[trigger] regions@[r].tiles@[m2]),
            forall|k: int|
                0 <= k < i && is_interior(w as int, h as int, k) && #[trigger] map.tiles@[k]
                    == TileKind::Floor ==> exists|r: int|
                    0 <= r < regions@.len() && (#[trigger] regions@[r]).key == cell_keys@[k]
                        && regions@[r].tiles@.contains(k as usize),
        decreases n - i,
    {
        let x = i % w;
        let y = i / w;
        let floor = match map.tiles[i] {
            TileKind::Floor => true,
            _ => false,
        };
        if floor && 1 <= x && x + 1 < w && 1 <= y && y + 1 < h {
            let key = cell_keys[i];
            let mut r: usize = 0;
            while r < regions.len() && regions[r].key != key
                invariant
                    r <= regions@.len(),
                    forall|q: int| 0 <= q < r ==> (#[trigger] regions@[q]).key != key,
                decreases regions@.len() - r,
            {
                r = r + 1;
            }
            let ghost prev = regions@;
            if r < regions.len() {
                regions[r].tiles.push(i);
                proof {
                    assert forall|q: int| 0 <= q < regions@.len() && q != r implies regions@[q] == prev[q] by {}
                    let last = regions@[r as int].tiles@.len() - 1;
                    assert(regions@[r as int].tiles@[last] == i);
                    assert(regions@[r as int].tiles@.contains(i));
                    assert forall|k: int|
                        0 <= k < i + 1 && is_interior(w as int, h as int, k) && #[trigger] map.tiles@[k]
                            == TileKind::Floor implies exists|q: int|
                            0 <= q < regions@.len() && (#[trigger] regions@[q]).key == cell_keys@[k]
                                && regions@[q].tiles@.contains(k as usize) by {
                        if k < i {
                            let q = choose|q: int|
                                0 <= q < prev.len() && (#[trigger] prev[q]).key == cell_keys@[k]
                                    && prev[q].tiles@.contains(k as usize);
                            if q == r {
                                let m = choose|m: int| 0 <= m < prev[q].tiles@.len() && prev[q].tiles@[m] == k as usize;
                                assert(regions@[q].tiles@[m] == k as usize);
                            }
                            assert(regions@[q].tiles@.contains(k as usize));
                        }
                    }
                }
            } else {
                let mut t: Vec<usize> = Vec::new();
                t.push(i);
                regions.push(Region { key, tiles: t });
                proof {
                    assert(regions@[r as int].tiles@[0] == i);
                    assert(regions@[r as int].tiles@.contains(i));
                    assert forall|k: int|
                        0 <= k < i + 1 && is_interior(w as int, h as int, k) && #[trigger] map.tiles@[k]
                            == TileKind::Floor implies exists|q: int|
                            0 <= q < regions@.len() && (#[trigger] regions@[q]).key == cell_keys@[k]
                                && regions@[q].tiles@.contains(k as usize) by {
                        if k < i {
                            let q = choose|q: int|
                                0 <= q < prev.len() && (#[trigger] prev[q]).key == cell_keys@[k]
                                    && prev[q].tiles@.contains(k as usize);
                            assert(regions@[q] == prev[q]);
                        }
                    }
                }
            }
        }
        i = i + 1;
    }
    regions
}

/// Carving the box of the whole map leaves every tile open.
proof fn lemma_whole_box_open(tiles: Seq<TileKind>, w: int, h: int)
    requires
        w >= 1,
        h >= 1,
        tiles.len() == w * h,
        forall|i: int|
            0 <= i < tiles.len() && crate::common::in_box(w, i, 0, w - 1, 0, h - 1) ==> #[trigger] tiles[i]
                == TileKind::Floor,
    ensures
        forall|i: int| 0 <= i < tiles.len() ==> is_open(#[trigger] tiles[i]),
{
    assert forall|i: int| 0 <= i < tiles.len() implies is_open(#[trigger] tiles[i]) by {
        assert(i / w < h) by (nonlinear_arith)
            requires
                0 <= i < w * h,
                w >= 1,
        ;
        assert(i / w >= 0) by (nonlinear_arith)
            requires
                0 <= i,
                w >= 1,
        ;
    }
}

/// Turns the whole map to floor and runs the reachability pass again: with
/// two or more tiles the stairs then never sit on the start.
fn open_fallback(map: &mut GridMap, start_x: i32, start_y: i32) -> (start: usize)
    requires
        old(map).wf(),
        old(map).in_bounds(start_x as int, start_y as int),
    ensures
        final(map).wf(),
        final(map).width == old(map).width,
        final(map).height == old(map).height,
        final(map).depth == old(map).depth,
        start == idx_of(old(map).width as int, start_x as int, start_y as int),
        final(map).tiles@[start as int] != TileKind::Wall,
        connected_from(final(map).tiles@, old(map).width as int, start as int, MAX_STEPS as nat),
        single_farthest_exit(
            final(map).tiles@,
            old(map).width as int,
            start as int,
            MAX_STEPS as nat,
        ),
        old(map).size() >= 2 ==> final(map).tiles@[start as int] != TileKind::DownStairs,
{
    let width = map.width;
    let height = map.height;
    apply_room_to_map(map, &Rect { x1: -1, y1: -1, x2: width, y2: height });
    let ghost open_tiles = map.tiles@;
    proof {
        lemma_whole_box_open(open_tiles, width as int, height as int);
    }
    let start = finish_map(map, start_x, start_y);
    proof {
        if width * height >= 2 {
            crate::common::lemma_open_field_exit_not_start(
                open_tiles,
                map.tiles@,
                width as int,
                height as int,
                start as int,
                MAX_STEPS as nat,
            );
        }
    }
    start
}

fn is_floor(map: &GridMap, i: usize) -> (r: bool)
    requires
        map.wf(),
        i < map.size(),
    ensures
        r == (map.tiles@[i as int] == TileKind::Floor),
{
    match map.tiles[i] {
        TileKind::Floor => true,
        _ => false,
    }
}

/// Index of the first floor tile, if any.
fn first_floor(map: &GridMap) -> (r: Option<usize>)
    requires
        map.wf(),
    ensures
        match r {
            Some(f) => f < map.size() && map.tiles@[f as int] == TileKind::Floor,
            None => forall|i: int| 0 <= i < map.size() ==> #[trigger] map.tiles@[i] != TileKind::Floor,
        },
{
    let mut i: usize = 0;
    while i < map.tiles.len()
        invariant
            map.wf(),
            i <= map.size(),
            forall|k: int| 0 <= k < i ==> #[trigger] map.tiles@[k] != TileKind::Floor,
        decreases map.size() - i,
    {
        if is_floor(map, i) {
            return Some(i);
        }
        i = i + 1;
    }
    None
}

/// Cellular regions: random noise smoothed into caves, culled to what the
/// start can reach; the start is the centre when it is floor, else the first
/// floor tile, and the map turns to open floor when nothing else is reached.
/// Spawns are planned per Voronoi region of `cell_keys`.
pub fn build_cellular_regions(
    rng: &mut RandomNumberGenerator,
    width: i32,
    height: i32,
    depth: i32,
    cell_keys: &Vec<i32>,
) -> (r: BuildResult)
    requires
        1 <= width,
        1 <= height,
        width * height <= MAX_TILES,
        cell_keys@.len() == width * height,
    ensures
        r.valid(width, height, depth),
        r.rooms@.len() == 0,
        width * height >= 2 ==> r.map.tiles@[r.start_idx()] != TileKind::DownStairs,
{
    let mut map = GridMap::new(width, height, depth);
    seed_noise(rng, &mut map);
    let mut pass: u32 = 0;
    while pass < SMOOTHING_PASSES
        invariant
            map.wf(),
            map.width == width,
            map.height == height,
            map.depth == depth,
        decreases SMOOTHING_PASSES - pass,
    {
        smooth(&mut map);
        pass = pass + 1;
    }
    let mut start_x = width / 2;
    let mut start_y = height / 2;
    let centre = map.xy_idx(start_x, start_y);
    if !is_floor(&map, centre) {
        match first_floor(&map) {
            Some(f) => {
                let (x, y) = map.idx_xy(f);
                start_x = x;
                start_y = y;
            },
            None => {
                apply_room_to_map(&mut map, &Rect { x1: -1, y1: -1, x2: width, y2: height });
            },
        }
    }
    let mut start = finish_map(&mut map, start_x, start_y);
    if !is_floor(&map, start) {
        start = open_fallback(&mut map, start_x, start_y);
    }
    let regions = gen_voronoi_regions(&map, cell_keys);
    let mut plan: Vec<usize> = Vec::new();
    let mut k: usize = 0;
    while k < regions.len()
        invariant
            map.wf(),
            map.width == width,
            map.height == height,
            is_region_split(map.tiles@, width as int, height as int, cell_keys@, regions@),
            plan_ok(map.tiles@, start as int, plan@),
        decreases regions@.len() - k,
    {
        let region = &regions[k].tiles;
        if region.len() <= i32::MAX as usize {
            plan_region(rng, &map, start, region, &mut plan);
        }
        k = k + 1;
    }
    BuildResult { map, start_x, start_y, rooms: Vec::new(), spawn_plan: plan }
}

/// Builds a level with the strategy that `depth` selects.
pub fn build_level(
    rng: &mut RandomNumberGenerator,
    width: i32,
    height: i32,
    depth: i32,
    cell_keys: &Vec<i32>,
) -> (r: BuildResult)
    requires
        1 <= width,
        1 <= height,
        width * height <= MAX_TILES,
        cell_keys@.len() == width * height,
    ensures
        r.valid(width, height, depth),
        builder_kind_for(depth) == BuilderKind::RoomsAndCorridors ==> {
            &&& r.rooms@.len() > 0 ==> (r.start_x as int, r.start_y as int)
                == r.rooms@[0].center_spec()
            &&& r.rooms@.len() == 0 ==> r.start_x == width / 2 && r.start_y == height / 2
        },
        builder_kind_for(depth) == BuilderKind::RoomsAndCorridors && width >= MAX_ROOM_SIZE + 1
            && height >= MAX_ROOM_SIZE + 1 ==> r.rooms@.len() > 0,
        builder_kind_for(depth) == BuilderKind::CellularRegions ==> r.rooms@.len() == 0 && (width
            * height >= 2 ==> r.map.tiles@[r.start_idx()] != TileKind::DownStairs),
{
    match builder_for_depth(depth) {
        BuilderKind::RoomsAndCorridors => build_rooms_and_corridors(rng, width, height, depth),
        BuilderKind::CellularRegions => build_cellular_regions(rng, width, height, depth, cell_keys),
    }
}

} // verus!
