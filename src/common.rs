//! Carving rooms and corridors, step distances over open tiles, and the
//! reachability pass that culls unreachable tiles and places the exit.

use crate::grid::{is_open, xy_of, GridMap, Rect, TileKind};
use vstd::prelude::*;

verus! {

/// How many steps the reachability pass explores from the start.
pub const MAX_STEPS: u32 = 200;

/// Tiles `i` and `j` of a row-major grid of width `w` and `n` tiles share an edge.
pub open spec fn adjacent(w: int, n: int, i: int, j: int) -> bool {
    &&& 0 <= i < n
    &&& 0 <= j < n
    &&& {
        ||| (j == i + 1 && j % w != 0)
        ||| (i == j + 1 && i % w != 0)
        ||| j == i + w
        ||| i == j + w
    }
}

/// `p` is a walk from `s` over edge-sharing tiles, each open but the first.
pub open spec fn is_walk(tiles: Seq<TileKind>, w: int, s: int, p: Seq<int>) -> bool {
    &&& p.len() >= 1
    &&& p[0] == s
    &&& forall|m: int|
        1 <= m < p.len() ==> {
            &&& 0 <= #[trigger] p[m] < tiles.len()
            &&& is_open(tiles[p[m]])
            &&& adjacent(w, tiles.len() as int, p[m - 1], p[m])
        }
}

/// Tile `i` can be reached from `s` in at most `k` steps between edge-sharing
/// open tiles.
pub open spec fn reaches(tiles: Seq<TileKind>, w: int, s: int, i: int, k: nat) -> bool {
    exists|p: Seq<int>| #[trigger] is_walk(tiles, w, s, p) && p.last() == i && p.len() <= k + 1
}

/// `dist` holds, for each tile, its step distance from `s` when that is at
/// most `cap`, and nothing otherwise.
pub open spec fn is_distance_field(
    tiles: Seq<TileKind>,
    w: int,
    s: int,
    cap: nat,
    dist: Seq<Option<u32>>,
) -> bool {
    &&& dist.len() == tiles.len()
    &&& forall|i: int|
        0 <= i < dist.len() && (#[trigger] dist[i]) is Some ==> dist[i]->0 <= cap && reaches(
            tiles,
            w,
            s,
            i,
            dist[i]->0 as nat,
        )
    &&& forall|i: int, k: nat|
        0 <= i < dist.len() && k <= cap && #[trigger] reaches(tiles, w, s, i, k) ==> dist[i] is Some
            && dist[i]->0 <= k
}

/// `e` is a tile reachable within `cap` steps whose distance from `s` is the
/// largest among all such tiles.
pub open spec fn is_farthest(tiles: Seq<TileKind>, w: int, s: int, cap: nat, e: int) -> bool {
    &&& 0 <= e < tiles.len()
    &&& exists|d: nat|
        {
            &&& d <= cap
            &&& #[trigger] reaches(tiles, w, s, e, d)
            &&& (d == 0 || !reaches(tiles, w, s, e, (d - 1) as nat))
            &&& forall|i: int| #[trigger]
                reaches(tiles, w, s, i, cap) ==> reaches(tiles, w, s, i, d)
        }
}

/// What the reachability pass makes of `old`: unreachable tiles become walls,
/// the others floor, and one farthest tile the stairs down.
#[verifier::opaque]
pub open spec fn culled(
    old: Seq<TileKind>,
    new: Seq<TileKind>,
    w: int,
    s: int,
    cap: nat,
) -> bool {
    &&& new.len() == old.len()
    &&& forall|i: int|
        0 <= i < new.len() ==> ((#[trigger] new[i] == TileKind::Wall) <==> !reaches(
            old,
            w,
            s,
            i,
            cap,
        ))
    &&& exists|e: int|
        #[trigger] is_farthest(old, w, s, cap, e) && (forall|i: int|
            0 <= i < e && #[trigger] reaches(old, w, s, i, cap) ==> strictly_closer(old, w, s, i, e))
            && forall|i: int|
            0 <= i < new.len() ==> ((#[trigger] new[i] == TileKind::DownStairs) <==> i == e)
}

/// Tile `i` is nearer to `s` than tile `e`: some budget reaches `i` but not `e`.
pub open spec fn strictly_closer(tiles: Seq<TileKind>, w: int, s: int, i: int, e: int) -> bool {
    exists|d: nat| #[trigger] reaches(tiles, w, s, i, d) && !reaches(tiles, w, s, e, d)
}

/// Every open tile can be reached from `s`.
pub open spec fn connected_from(tiles: Seq<TileKind>, w: int, s: int, cap: nat) -> bool {
    forall|i: int| 0 <= i < tiles.len() && is_open(#[trigger] tiles[i]) ==> reaches(tiles, w, s, i, cap)
}

/// Exactly one tile is the stairs down, and no open tile is farther from `s`.
pub open spec fn single_farthest_exit(tiles: Seq<TileKind>, w: int, s: int, cap: nat) -> bool {
    exists|e: int|
        #[trigger] is_farthest(tiles, w, s, cap, e) && forall|i: int|
            0 <= i < tiles.len() ==> ((#[trigger] tiles[i] == TileKind::DownStairs) <==> i == e)
}

/// Whether tile `i` lies in the box `[xlo, xhi] x [ylo, yhi]`.
pub open spec fn in_box(w: int, i: int, xlo: int, xhi: int, ylo: int, yhi: int) -> bool {
    let (x, y) = xy_of(w, i);
    xlo <= x <= xhi && ylo <= y <= yhi
}

/// The map after turning every tile of a box to floor.
pub open spec fn carved(
    old: GridMap,
    new: GridMap,
    xlo: int,
    xhi: int,
    ylo: int,
    yhi: int,
) -> bool {
    &&& new.wf()
    &&& new.width == old.width
    &&& new.height == old.height
    &&& new.depth == old.depth
    &&& new.status == old.status
    &&& new.tile_content == old.tile_content
    &&& forall|i: int|
        0 <= i < new.size() ==> #[trigger] new.tiles@[i] == if in_box(
            old.width as int,
            i,
            xlo,
            xhi,
            ylo,
            yhi,
        ) {
            TileKind::Floor
        } else {
            old.tiles@[i]
        }
}

fn carve_box(map: &mut GridMap, xlo: i64, xhi: i64, ylo: i64, yhi: i64)
    requires
        old(map).wf(),
    ensures
        carved(*old(map), *final(map), xlo as int, xhi as int, ylo as int, yhi as int),
{
    let n = map.tiles.len();
    let w = map.width as usize;
    let mut i: usize = 0;
    while i < n
        invariant
            map.wf(),
            n == map.size(),
            w == map.width,
            map.width == old(map).width,
            map.height == old(map).height,
            map.depth == old(map).depth,
            map.status == old(map).status,
            map.tile_content == old(map).tile_content,
            forall|k: int|
                0 <= k < n ==> #[trigger] map.tiles@[k] == if k < i && in_box(
                    w as int,
                    k,
                    xlo as int,
                    xhi as int,
                    ylo as int,
                    yhi as int,
                ) {
                    TileKind::Floor
                } else {
                    old(map).tiles@[k]
                },
        decreases n - i,
    {
        let x = (i % w) as i64;
        let y = (i / w) as i64;
        if xlo <= x && x <= xhi && ylo <= y && y <= yhi {
            map.tiles.set(i, TileKind::Floor);
        }
        i = i + 1;
    }
}

/// Turns the inside of `room` (its edges excluded), which lies on the map,
/// to floor.
pub fn apply_room_to_map(map: &mut GridMap, room: &Rect)
    requires
        old(map).wf(),
        -1 <= room.x1,
        room.x2 <= old(map).width,
        -1 <= room.y1,
        room.y2 <= old(map).height,
    ensures
        carved(
            *old(map),
            *final(map),
            room.x1 + 1,
            room.x2 - 1,
            room.y1 + 1,
            room.y2 - 1,
        ),
{
    carve_box(map, room.x1 as i64 + 1, room.x2 as i64 - 1, room.y1 as i64 + 1, room.y2 as i64 - 1);
}

/// Turns row `y` from column `x1` to column `x2`, both included, to floor.
pub fn apply_horizontal_tunnel(map: &mut GridMap, x1: i32, x2: i32, y: i32)
    requires
        old(map).wf(),
        old(map).in_bounds(x1 as int, y as int),
        old(map).in_bounds(x2 as int, y as int),
    ensures
        carved(
            *old(map),
            *final(map),
            if x1 <= x2 { x1 as int } else { x2 as int },
            if x1 <= x2 { x2 as int } else { x1 as int },
            y as int,
            y as int,
        ),
{
    let lo = if x1 <= x2 { x1 } else { x2 };
    let hi = if x1 <= x2 { x2 } else { x1 };
    carve_box(map, lo as i64, hi as i64, y as i64, y as i64);
}

/// Turns column `x` from row `y1` to row `y2`, both included, to floor.
pub fn apply_vertical_tunnel(map: &mut GridMap, y1: i32, y2: i32, x: i32)
    requires
        old(map).wf(),
        old(map).in_bounds(x as int, y1 as int),
        old(map).in_bounds(x as int, y2 as int),
    ensures
        carved(
            *old(map),
            *final(map),
            x as int,
            x as int,
            if y1 <= y2 { y1 as int } else { y2 as int },
            if y1 <= y2 { y2 as int } else { y1 as int },
        ),
{
    let lo = if y1 <= y2 { y1 } else { y2 };
    let hi = if y1 <= y2 { y2 } else { y1 };
    carve_box(map, x as i64, x as i64, lo as i64, hi as i64);
}


/// The start is reached without a step.
pub proof fn lemma_reaches_start(tiles: Seq<TileKind>, w: int, s: int, k: nat)
    ensures
        reaches(tiles, w, s, s, k),
{
    let p = seq![s];
    assert(is_walk(tiles, w, s, p));
}

/// A larger budget never loses a tile.
pub proof fn lemma_reaches_mono(tiles: Seq<TileKind>, w: int, s: int, i: int, k: nat, k2: nat)
    requires
        reaches(tiles, w, s, i, k),
        k <= k2,
    ensures
        reaches(tiles, w, s, i, k2),
{
    let p = choose|p: Seq<int>| #[trigger] is_walk(tiles, w, s, p) && p.last() == i && p.len() <= k + 1;
    assert(is_walk(tiles, w, s, p));
}

/// One step onto an open neighbour.
pub proof fn lemma_reaches_extend(tiles: Seq<TileKind>, w: int, s: int, j: int, i: int, k: nat)
    requires
        reaches(tiles, w, s, j, k),
        adjacent(w, tiles.len() as int, j, i),
        is_open(tiles[i]),
    ensures
        reaches(tiles, w, s, i, k + 1),
{
    let p = choose|p: Seq<int>| #[trigger] is_walk(tiles, w, s, p) && p.last() == j && p.len() <= k + 1;
    let q = p.push(i);
    assert forall|m: int| 1 <= m < q.len() implies {
        &&& 0 <= #[trigger] q[m] < tiles.len()
        &&& is_open(tiles[q[m]])
        &&& adjacent(w, tiles.len() as int, q[m - 1], q[m])
    } by {
        if m < p.len() {
            assert(q[m] == p[m] && q[m - 1] == p[m - 1]);
        }
    }
    assert(is_walk(tiles, w, s, q));
}

/// A tile other than the start is open and is one step past a tile reached
/// with one step less.
pub proof fn lemma_reaches_last_step(tiles: Seq<TileKind>, w: int, s: int, i: int, k: nat) -> (j: int)
    requires
        reaches(tiles, w, s, i, k),
        i != s,
    ensures
        k >= 1,
        0 <= i < tiles.len(),
        is_open(tiles[i]),
        adjacent(w, tiles.len() as int, j, i),
        reaches(tiles, w, s, j, (k - 1) as nat),
{
    let p = choose|p: Seq<int>| #[trigger] is_walk(tiles, w, s, p) && p.last() == i && p.len() <= k + 1;
    let q = p.drop_last();
    assert(p.len() >= 2);
    let m = p.len() - 1;
    assert(0 <= p[m] < tiles.len() && is_open(tiles[p[m]]) && adjacent(
        w,
        tiles.len() as int,
        p[m - 1],
        p[m],
    ));
    assert forall|m2: int| 1 <= m2 < q.len() implies {
        &&& 0 <= #[trigger] q[m2] < tiles.len()
        &&& is_open(tiles[q[m2]])
        &&& adjacent(w, tiles.len() as int, q[m2 - 1], q[m2])
    } by {
        assert(q[m2] == p[m2] && q[m2 - 1] == p[m2 - 1]);
    }
    assert(is_walk(tiles, w, s, q));
    p[m - 1]
}

/// Following recorded parents back to the start is a walk of `dist[i]` steps.
proof fn lemma_parent_chain(
    tiles: Seq<TileKind>,
    w: int,
    s: int,
    dist: Seq<Option<u32>>,
    parent: Seq<usize>,
    i: int,
)
    requires
        dist.len() == tiles.len(),
        parent.len() == tiles.len(),
        0 <= i < dist.len(),
        dist[i] is Some,
        forall|k: int|
            0 <= k < dist.len() && (#[trigger] dist[k]) is Some && k != s ==> {
                &&& is_open(tiles[k])
                &&& adjacent(w, tiles.len() as int, parent[k] as int, k)
                &&& dist[parent[k] as int] is Some
                &&& dist[parent[k] as int]->0 + 1 == dist[k]->0
            },
    ensures
        reaches(tiles, w, s, i, dist[i]->0 as nat),
    decreases dist[i]->0,
{
    if i == s {
        lemma_reaches_start(tiles, w, s, dist[i]->0 as nat);
    } else {
        let p = parent[i] as int;
        lemma_parent_chain(tiles, w, s, dist, parent, p);
        lemma_reaches_extend(tiles, w, s, p, i, dist[p]->0 as nat);
    }
}

/// Where every tile closer than `cap` passes its distance plus one on to its
/// open neighbours, no tile is farther than any walk to it.
proof fn lemma_lower_bound(
    tiles: Seq<TileKind>,
    w: int,
    s: int,
    cap: nat,
    dist: Seq<Option<u32>>,
    i: int,
    k: nat,
)
    requires
        dist.len() == tiles.len(),
        0 <= s < dist.len(),
        dist[s] == Some(0u32),
        k <= cap,
        0 <= i < dist.len(),
        reaches(tiles, w, s, i, k),
        forall|a: int, b: int|
            0 <= a < dist.len() && (#[trigger] dist[a]) is Some && dist[a]->0 < cap && adjacent(
                w,
                tiles.len() as int,
                a,
                b,
            ) && is_open(#[trigger] tiles[b]) ==> dist[b] is Some && dist[b]->0 <= dist[a]->0
                + 1,
    ensures
        dist[i] is Some,
        dist[i]->0 <= k,
    decreases k,
{
    if i != s {
        let j = lemma_reaches_last_step(tiles, w, s, i, k);
        lemma_lower_bound(tiles, w, s, cap, dist, j, (k - 1) as nat);
    }
}

fn relax(
    tiles: &Vec<TileKind>,
    dist: &mut Vec<Option<u32>>,
    parent: &mut Vec<usize>,
    j: usize,
    from: usize,
    d: u32,
) -> (changed: bool)
    requires
        j < old(dist)@.len(),
        tiles@.len() == old(dist)@.len(),
        old(parent)@.len() == old(dist)@.len(),
    ensures
        changed == (is_open(tiles@[j as int]) && old(dist)@[j as int] is None),
        final(dist)@ == if changed {
            old(dist)@.update(j as int, Some(d))
        } else {
            old(dist)@
        },
        final(parent)@ == if changed {
            old(parent)@.update(j as int, from)
        } else {
            old(parent)@
        },
{
    let open = match tiles[j] {
        TileKind::Wall => false,
        _ => true,
    };
    if open && dist[j].is_none() {
        dist.set(j, Some(d));
        parent.set(j, from);
        true
    } else {
        false
    }
}

/// Gives each open neighbour of `i` that has no distance yet the distance `d`,
/// recording `i` as its parent.
fn expand(
    tiles: &Vec<TileKind>,
    width: usize,
    dist: &mut Vec<Option<u32>>,
    parent: &mut Vec<usize>,
    i: usize,
    d: u32,
) -> (grew: bool)
    requires
        width > 0,
        tiles@.len() + width <= usize::MAX,
        i < tiles@.len(),
        old(dist)@.len() == tiles@.len(),
        old(parent)@.len() == tiles@.len(),
    ensures
        final(dist)@.len() == tiles@.len(),
        final(parent)@.len() == tiles@.len(),
        forall|b: int|
            0 <= b < tiles@.len() && adjacent(width as int, tiles@.len() as int, i as int, b)
                && is_open(tiles@[b]) && old(dist)@[b] is None ==> #[trigger] final(dist)@[b] == Some(
                d,
            ) && final(parent)@[b] == i,
        forall|b: int|
            0 <= b < tiles@.len() && !(adjacent(width as int, tiles@.len() as int, i as int, b)
                && is_open(tiles@[b]) && old(dist)@[b] is None) ==> #[trigger] final(dist)@[b]
                == old(dist)@[b] && final(parent)@[b] == old(parent)@[b],
        grew || final(dist)@ == old(dist)@,
{
    let n = tiles.len();
    let mut grew = false;
    if i + 1 < n && (i + 1) % width != 0 {
        grew = relax(tiles, dist, parent, i + 1, i, d) || grew;
    }
    if i >= 1 && i % width != 0 {
        grew = relax(tiles, dist, parent, i - 1, i, d) || grew;
    }
    if i + width < n {
        grew = relax(tiles, dist, parent, i + width, i, d) || grew;
    }
    if i >= width {
        grew = relax(tiles, dist, parent, i - width, i, d) || grew;
    }
    grew
}

/// Step distances from `start` over open tiles, explored for at most `cap`
/// steps; tiles farther away, or cut off, get `None`.
pub fn distance_field(tiles: &Vec<TileKind>, width: usize, start: usize, cap: u32) -> (dist: Vec<
    Option<u32>,
>)
    requires
        width > 0,
        start < tiles@.len(),
        tiles@.len() + width <= usize::MAX,
    ensures
        is_distance_field(tiles@, width as int, start as int, cap as nat, dist@),
{
    let n = tiles.len();
    let ghost w = width as int;
    let mut dist: Vec<Option<u32>> = Vec::new();
    let mut parent: Vec<usize> = Vec::new();
    let mut i: usize = 0;
    while i < n
        invariant
            i <= n,
            n == tiles@.len(),
            dist@.len() == i,
            parent@.len() == i,
            forall|k: int| 0 <= k < i ==> (#[trigger] dist@[k]) is None,
        decreases n - i,
    {
        dist.push(None);
        parent.push(start);
        i = i + 1;
    }
    dist.set(start, Some(0));
    let mut d: u32 = 0;
    let mut grew = true;
    while grew && d < cap
        invariant
            n == tiles@.len(),
            n + width <= usize::MAX,
            width > 0,
            w == width,
            start < n,
            d <= cap,
            dist@.len() == n,
            parent@.len() == n,
            dist@[start as int] == Some(0u32),
            forall|k: int| 0 <= k < n && (#[trigger] dist@[k]) is Some ==> dist@[k]->0 <= d,
            !grew ==> forall|k: int| 0 <= k < n && (#[trigger] dist@[k]) is Some ==> dist@[k]->0 < d,
            forall|k: int|
                0 <= k < n && (#[trigger] dist@[k]) is Some && k != start ==> {
                    &&& is_open(tiles@[k])
                    &&& adjacent(w, n as int, parent@[k] as int, k)
                    &&& dist@[parent@[k] as int] is Some
                    &&& dist@[parent@[k] as int]->0 + 1 == dist@[k]->0
                },
            forall|a: int, b: int|
                0 <= a < n && (#[trigger] dist@[a]) is Some && dist@[a]->0 < d && adjacent(
                    w,
                    n as int,
                    a,
                    b,
                ) && is_open(#[trigger] tiles@[b]) ==> dist@[b] is Some && dist@[b]->0 <= dist@[a]->0
                    + 1,
        decreases cap - d,
    {
        let ghost before = dist@;
        grew = false;
        let d1 = d + 1;
        let mut i: usize = 0;
        while i < n
            invariant
                i <= n,
                n == tiles@.len(),
                n + width <= usize::MAX,
                width > 0,
                w == width,
                start < n,
                d < cap,
                d1 == d + 1,
                dist@.len() == n,
                parent@.len() == n,
                before.len() == n,
                dist@[start as int] == Some(0u32),
                forall|k: int| 0 <= k < n && (#[trigger] before[k]) is Some ==> before[k]->0 <= d,
                forall|k: int|
                    0 <= k < n && (#[trigger] before[k]) is Some ==> dist@[k] == before[k],
                forall|k: int|
                    0 <= k < n && (#[trigger] dist@[k]) is Some && before[k] is None ==> dist@[k]
                        == Some(d1),
                !grew ==> dist@ == before,
                forall|k: int|
                    0 <= k < n && (#[trigger] dist@[k]) is Some && k != start ==> {
                        &&& is_open(tiles@[k])
                        &&& adjacent(w, n as int, parent@[k] as int, k)
                        &&& dist@[parent@[k] as int] is Some
                        &&& dist@[parent@[k] as int]->0 + 1 == dist@[k]->0
                    },
                forall|a: int, b: int|
                    0 <= a < n && (#[trigger] before[a]) is Some && before[a]->0 < d && adjacent(
                        w,
                        n as int,
                        a,
                        b,
                    ) && is_open(#[trigger] tiles@[b]) ==> before[b] is Some && before[b]->0
                        <= before[a]->0 + 1,
                forall|a: int, b: int|
                    0 <= a < i && (#[trigger] dist@[a]) == Some(d) && adjacent(w, n as int, a, b)
                        && is_open(#[trigger] tiles@[b]) ==> dist@[b] is Some && dist@[b]->0 <= d1,
            decreases n - i,
        {
            if dist[i] == Some(d) {
                let ghost mid = dist@;
                let g = expand(tiles, width, &mut dist, &mut parent, i, d1);
                grew = grew || g;
                proof {
                    assert forall|k: int|
                        0 <= k < n && (#[trigger] dist@[k]) is Some && k != start implies {
                            &&& is_open(tiles@[k])
                            &&& adjacent(w, n as int, parent@[k] as int, k)
                            &&& dist@[parent@[k] as int] is Some
                            &&& dist@[parent@[k] as int]->0 + 1 == dist@[k]->0
                        } by {
                        if mid[k] is Some {
                            assert(dist@[k] == mid[k]);
                            assert(mid[parent@[k] as int] is Some);
                            assert(dist@[parent@[k] as int] == mid[parent@[k] as int]);
                        } else {
                            assert(dist@[i as int] == mid[i as int]);
                        }
                    }
                    assert forall|a: int, b: int|
                        0 <= a < i + 1 && (#[trigger] dist@[a]) == Some(d) && adjacent(
                            w,
                            n as int,
                            a,
                            b,
                        ) && is_open(#[trigger] tiles@[b]) implies dist@[b] is Some && dist@[b]->0
                        <= d1 by {
                        if mid[a] is Some {
                            assert(dist@[a] == mid[a]);
                        }
                        if mid[b] is Some {
                            assert(dist@[b] == mid[b]);
                        }
                    }
                    assert forall|k: int|
                        0 <= k < n && (#[trigger] dist@[k]) is Some && before[k] is None implies dist@[k]
                        == Some(d1) by {
                        if mid[k] is Some {
                            assert(dist@[k] == mid[k]);
                        }
                    }
                    assert forall|k: int|
                        0 <= k < n && (#[trigger] before[k]) is Some implies dist@[k] == before[k] by {
                        assert(mid[k] == before[k]);
                    }
                }
            }
            i = i + 1;
        }
        proof {
            assert forall|a: int, b: int|
                0 <= a < n && (#[trigger] dist@[a]) is Some && dist@[a]->0 < d1 && adjacent(
                    w,
                    n as int,
                    a,
                    b,
                ) && is_open(#[trigger] tiles@[b]) implies dist@[b] is Some && dist@[b]->0
                <= dist@[a]->0 + 1 by {
                if before[a] is Some && before[a]->0 < d {
                    assert(before[b] is Some);
                    assert(dist@[b] == before[b]);
                } else {
                    assert(dist@[a] == Some(d));
                }
            }
        }
        d = d1;
    }
    proof {
        assert forall|k: int|
            0 <= k < n && (#[trigger] dist@[k]) is Some implies dist@[k]->0 <= cap && reaches(
                tiles@,
                w,
                start as int,
                k,
                dist@[k]->0 as nat,
            ) by {
            lemma_parent_chain(tiles@, w, start as int, dist@, parent@, k);
        }
        assert forall|k: int, m: nat|
            0 <= k < n && m <= cap && #[trigger] reaches(tiles@, w, start as int, k, m) implies dist@[k] is Some
                && dist@[k]->0 <= m by {
            lemma_lower_bound(tiles@, w, start as int, cap as nat, dist@, k, m);
        }
    }
    dist
}

/// A tile reached from `s` is `s` itself or lies on the grid.
proof fn lemma_reaches_in_range(tiles: Seq<TileKind>, w: int, s: int, i: int, k: nat)
    requires
        reaches(tiles, w, s, i, k),
    ensures
        i == s || (0 <= i < tiles.len() && is_open(tiles[i])),
{
    if i != s {
        lemma_reaches_last_step(tiles, w, s, i, k);
    }
}

/// A walk of the old grid within the budget is still a walk after the cull.
proof fn lemma_culled_keeps_walks(
    old: Seq<TileKind>,
    new: Seq<TileKind>,
    w: int,
    s: int,
    cap: nat,
    i: int,
    k: nat,
)
    requires
        culled(old, new, w, s, cap),
        reaches(old, w, s, i, k),
        k <= cap,
    ensures
        reaches(new, w, s, i, k),
    decreases k,
{
    reveal(culled);
    if i == s {
        lemma_reaches_start(new, w, s, k);
    } else {
        let j = lemma_reaches_last_step(old, w, s, i, k);
        lemma_culled_keeps_walks(old, new, w, s, cap, j, (k - 1) as nat);
        lemma_reaches_mono(old, w, s, i, k, cap);
        assert(new[i] != TileKind::Wall);
        lemma_reaches_extend(new, w, s, j, i, (k - 1) as nat);
    }
}

/// A walk of the culled grid was a walk of the old grid.
proof fn lemma_culled_walks_were_there(
    old: Seq<TileKind>,
    new: Seq<TileKind>,
    w: int,
    s: int,
    cap: nat,
    i: int,
    k: nat,
)
    requires
        culled(old, new, w, s, cap),
        reaches(new, w, s, i, k),
    ensures
        reaches(old, w, s, i, k),
    decreases k,
{
    reveal(culled);
    if i == s {
        lemma_reaches_start(old, w, s, k);
    } else {
        let j = lemma_reaches_last_step(new, w, s, i, k);
        lemma_culled_walks_were_there(old, new, w, s, cap, j, (k - 1) as nat);
        assert(new[i] != TileKind::Wall);
        lemma_reaches_in_range(old, w, s, i, cap);
        lemma_reaches_extend(old, w, s, j, i, (k - 1) as nat);
    }
}

/// After the reachability pass every open tile can be reached from the start.
pub proof fn lemma_culled_connected(old: Seq<TileKind>, new: Seq<TileKind>, w: int, s: int, cap: nat)
    requires
        culled(old, new, w, s, cap),
    ensures
        connected_from(new, w, s, cap),
{
    reveal(culled);
    assert forall|i: int| 0 <= i < new.len() && is_open(#[trigger] new[i]) implies reaches(
        new,
        w,
        s,
        i,
        cap,
    ) by {
        lemma_culled_keeps_walks(old, new, w, s, cap, i, cap);
    }
}

/// After the reachability pass exactly one tile is the stairs down, and no
/// open tile is farther from the start than it.
pub proof fn lemma_culled_single_exit(old: Seq<TileKind>, new: Seq<TileKind>, w: int, s: int, cap: nat)
    requires
        culled(old, new, w, s, cap),
    ensures
        single_farthest_exit(new, w, s, cap),
{
    reveal(culled);
    let e = choose|e: int|
        #[trigger] is_farthest(old, w, s, cap, e) && (forall|i: int|
            0 <= i < e && #[trigger] reaches(old, w, s, i, cap) ==> strictly_closer(old, w, s, i, e))
            && forall|i: int|
            0 <= i < new.len() ==> ((#[trigger] new[i] == TileKind::DownStairs) <==> i == e);
    let d = choose|d: nat|
        {
            &&& d <= cap
            &&& #[trigger] reaches(old, w, s, e, d)
            &&& (d == 0 || !reaches(old, w, s, e, (d - 1) as nat))
            &&& forall|i: int| #[trigger] reaches(old, w, s, i, cap) ==> reaches(old, w, s, i, d)
        };
    lemma_culled_keeps_walks(old, new, w, s, cap, e, d);
    if d > 0 && reaches(new, w, s, e, (d - 1) as nat) {
        lemma_culled_walks_were_there(old, new, w, s, cap, e, (d - 1) as nat);
    }
    assert forall|i: int| #[trigger] reaches(new, w, s, i, cap) implies reaches(new, w, s, i, d) by {
        lemma_culled_walks_were_there(old, new, w, s, cap, i, cap);
        lemma_culled_keeps_walks(old, new, w, s, cap, i, d);
    }
    assert(is_farthest(new, w, s, cap, e));
}

/// Every tile of a grid of two or more tiles has a neighbour.
proof fn lemma_has_neighbour(w: int, h: int, s: int) -> (j: int)
    requires
        w >= 1,
        h >= 1,
        w * h >= 2,
        0 <= s < w * h,
    ensures
        adjacent(w, w * h, s, j),
{
    let n = w * h;
    if s + 1 < n && (s + 1) % w != 0 {
        s + 1
    } else if s % w != 0 {
        s - 1
    } else if s + w < n {
        s + w
    } else if s >= w {
        s - w
    } else {
        assert(s < w);
        assert(s % w == s) by {
            vstd::arithmetic::div_mod::lemma_small_mod(s as nat, w as nat);
        }
        assert(s == 0);
        assert(w >= n);
        assert(h == 1) by (nonlinear_arith)
            requires
                w >= n,
                n == w * h,
                w >= 1,
                h >= 1,
        ;
        assert(n == w);
        assert(w > 1);
        vstd::arithmetic::div_mod::lemma_small_mod(1, w as nat);
        assert(1int % w == 1);
        assert(false);
        0
    }
}

/// On a grid of two or more tiles that are all open, the reachability pass
/// never puts the stairs on the start: some neighbour is one step farther.
pub proof fn lemma_open_field_exit_not_start(
    old: Seq<TileKind>,
    new: Seq<TileKind>,
    w: int,
    h: int,
    s: int,
    cap: nat,
)
    requires
        culled(old, new, w, s, cap),
        cap >= 1,
        w >= 1,
        h >= 1,
        old.len() == w * h,
        w * h >= 2,
        0 <= s < old.len(),
        forall|i: int| 0 <= i < old.len() ==> is_open(#[trigger] old[i]),
    ensures
        new[s] != TileKind::DownStairs,
{
    reveal(culled);
    let n = old.len() as int;
    let j = lemma_has_neighbour(w, h, s);
    assert(adjacent(w, n, s, j));
    lemma_reaches_start(old, w, s, 0);
    lemma_reaches_extend(old, w, s, s, j, 0);
    lemma_reaches_mono(old, w, s, j, 1, cap);
    if new[s] == TileKind::DownStairs {
        let e = choose|e: int|
            #[trigger] is_farthest(old, w, s, cap, e) && (forall|i: int|
                0 <= i < e && #[trigger] reaches(old, w, s, i, cap) ==> strictly_closer(old, w, s, i, e))
                && forall|i: int|
                0 <= i < new.len() ==> ((#[trigger] new[i] == TileKind::DownStairs) <==> i == e);
        assert(e == s);
        assert(is_farthest(old, w, s, cap, s));
        let d = choose|d: nat|
            {
                &&& d <= cap
                &&& #[trigger] reaches(old, w, s, e, d)
                &&& (d == 0 || !reaches(old, w, s, e, (d - 1) as nat))
                &&& forall|i: int| #[trigger] reaches(old, w, s, i, cap) ==> reaches(old, w, s, i, d)
            };
        if d > 0 {
            lemma_reaches_start(old, w, s, (d - 1) as nat);
        }
        assert(reaches(old, w, s, j, 0));
        lemma_reaches_last_step(old, w, s, j, 0);
    }
}

/// The reachability pass: tiles that cannot be reached from `start_idx`
/// within `MAX_STEPS` steps become walls, the others floor, and the first of
/// the tiles farthest from the start becomes the stairs down.
pub fn cull_and_set_exit(map: &mut GridMap, start_idx: usize)
    requires
        old(map).wf(),
        start_idx < old(map).size(),
    ensures
        final(map).wf(),
        final(map).width == old(map).width,
        final(map).height == old(map).height,
        final(map).depth == old(map).depth,
        final(map).status == old(map).status,
        final(map).tile_content == old(map).tile_content,
        culled(
            old(map).tiles@,
            final(map).tiles@,
            old(map).width as int,
            start_idx as int,
            MAX_STEPS as nat,
        ),
        connected_from(final(map).tiles@, old(map).width as int, start_idx as int, MAX_STEPS as nat),
        single_farthest_exit(
            final(map).tiles@,
            old(map).width as int,
            start_idx as int,
            MAX_STEPS as nat,
        ),
{
    let ghost old_tiles = map.tiles@;
    let ghost w = map.width as int;
    let ghost s = start_idx as int;
    let ghost cap = MAX_STEPS as nat;
    let n = map.tiles.len();
    let width = map.width as usize;
    proof {
        assert(width <= n) by (nonlinear_arith)
            requires
                width == map.width,
                n == map.width * map.height,
                map.height >= 1,
                map.width >= 1,
        ;
    }
    let dist = distance_field(&map.tiles, width, start_idx, MAX_STEPS);
    proof {
        lemma_reaches_start(old_tiles, w, s, 0);
        assert forall|k: int| 0 <= k < n && (#[trigger] dist@[k]) == Some(0u32) implies k == s by {
            if k != s {
                lemma_reaches_last_step(old_tiles, w, s, k, 0);
            }
        }
    }
    let mut e = start_idx;
    let mut best: u32 = 0;
    let mut i: usize = 0;
    while i < n
        invariant
            i <= n,
            n == dist@.len(),
            e < n,
            dist@[e as int] == Some(best),
            e <= i || (e == start_idx && best == 0),
            start_idx < n,
            forall|k: int| 0 <= k < n && (#[trigger] dist@[k]) == Some(0u32) ==> k == start_idx,
            forall|k: int| 0 <= k < i && (#[trigger] dist@[k]) is Some ==> dist@[k]->0 <= best,
            forall|k: int| 0 <= k < i && k < e && (#[trigger] dist@[k]) is Some ==> dist@[k]->0 < best,
        decreases n - i,
    {
        match dist[i] {
            Some(v) => {
                if v > best {
                    e = i;
                    best = v;
                }
            },
            None => {},
        }
        i = i + 1;
    }
    let mut tiles: Vec<TileKind> = Vec::new();
    let mut i: usize = 0;
    while i < n
        invariant
            i <= n,
            n == dist@.len(),
            tiles@.len() == i,
            forall|k: int|
                0 <= k < i ==> #[trigger] tiles@[k] == if dist@[k] is Some {
                    TileKind::Floor
                } else {
                    TileKind::Wall
                },
        decreases n - i,
    {
        if dist[i].is_some() {
            tiles.push(TileKind::Floor);
        } else {
            tiles.push(TileKind::Wall);
        }
        i = i + 1;
    }
    tiles.set(e, TileKind::DownStairs);
    map.tiles = tiles;
    proof {
        let new = map.tiles@;
        assert forall|k: int| 0 <= k < n implies ((#[trigger] new[k] == TileKind::Wall) <==> !reaches(
            old_tiles,
            w,
            s,
            k,
            cap,
        )) by {
            if dist@[k] is Some {
                lemma_reaches_mono(old_tiles, w, s, k, dist@[k]->0 as nat, cap);
            }
        }
        if best > 0 && reaches(old_tiles, w, s, e as int, (best - 1) as nat) {
            assert(dist@[e as int]->0 <= best - 1);
        }
        assert forall|k: int| #[trigger] reaches(old_tiles, w, s, k, cap) implies reaches(
            old_tiles,
            w,
            s,
            k,
            best as nat,
        ) by {
            lemma_reaches_in_range(old_tiles, w, s, k, cap);
            lemma_reaches_mono(old_tiles, w, s, k, dist@[k]->0 as nat, best as nat);
        }
        assert(reaches(old_tiles, w, s, e as int, best as nat));
        assert(is_farthest(old_tiles, w, s, cap, e as int));
        assert forall|k: int| 0 <= k < n implies ((#[trigger] new[k] == TileKind::DownStairs) <==> k
            == e) by {}
        assert forall|k: int|
            0 <= k < e && #[trigger] reaches(old_tiles, w, s, k, cap) implies strictly_closer(
            old_tiles,
            w,
            s,
            k,
            e as int,
        ) by {
            lemma_reaches_in_range(old_tiles, w, s, k, cap);
            let dk = dist@[k]->0 as nat;
            if reaches(old_tiles, w, s, e as int, dk) {
                assert(dist@[e as int]->0 <= dk);
            }
            assert(reaches(old_tiles, w, s, k, dk));
        }
        reveal(culled);
        assert(culled(old_tiles, new, w, s, cap));
        lemma_culled_connected(old_tiles, new, w, s, cap);
        lemma_culled_single_exit(old_tiles, new, w, s, cap);
    }
}

} // verus!
