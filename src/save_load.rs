//! What a save holds, and taking it from and putting it back into the world.

use crate::grid::{GridMap, TileKind};
use crate::state::{after_load, MainMenuSelection, RunState};
use crate::world::{ids_below, ids_unique, EcsWorld, EntityRecord, ID_LIMIT, MAP_HEIGHT, MAP_WIDTH};
use vstd::prelude::*;

verus! {

/// Everything a save holds: every entity with its id and components, the id
/// counter, and the map without its occupant lists.
pub struct SaveData {
    pub entities: Vec<EntityRecord>,
    pub next_id: u64,
    pub width: i32,
    pub height: i32,
    pub depth: i32,
    pub tiles: Vec<TileKind>,
    pub status: Vec<u8>,
}

/// `k` is the first entity marked as the player that has a position.
pub open spec fn is_player_at(es: Seq<EntityRecord>, k: int) -> bool {
    &&& 0 <= k < es.len()
    &&& es[k].player
    &&& es[k].position is Some
    &&& forall|j: int| 0 <= j < k ==> !((#[trigger] es[j]).player && es[j].position is Some)
}

/// A save that can be loaded: the map's size, distinct ids below the
/// counter, and exactly one record marked as the player, which has a position.
pub open spec fn valid_save(d: SaveData) -> bool {
    &&& d.width == MAP_WIDTH
    &&& d.height == MAP_HEIGHT
    &&& d.tiles@.len() == MAP_WIDTH * MAP_HEIGHT
    &&& d.status@.len() == MAP_WIDTH * MAP_HEIGHT
    &&& ids_unique(d.entities@)
    &&& ids_below(d.entities@, d.next_id)
    &&& d.next_id <= ID_LIMIT
    &&& exists|k: int| is_player_at(d.entities@, k)
    &&& at_most_one_player(d.entities@)
}

/// No two records are marked as the player.
pub open spec fn at_most_one_player(es: Seq<EntityRecord>) -> bool {
    forall|a: int, b: int| 0 <= a < b < es.len() ==> !((#[trigger] es[a]).player && (#[trigger] es[b]).player)
}

fn single_player(es: &Vec<EntityRecord>) -> (r: bool)
    ensures
        r == at_most_one_player(es@),
{
    let mut seen: Option<usize> = None;
    let mut i: usize = 0;
    while i < es.len()
        invariant
            i <= es@.len(),
            match seen {
                Some(j) => j < i && es@[j as int].player,
                None => forall|j: int| 0 <= j < i ==> !(#[trigger] es@[j]).player,
            },
            forall|a: int, b: int| 0 <= a < b < i ==> !((#[trigger] es@[a]).player && (#[trigger] es@[b]).player),
        decreases es@.len() - i,
    {
        if es[i].player {
            match seen {
                Some(j) => {
                    proof {
                        assert(es@[j as int].player && es@[i as int].player);
                    }
                    return false;
                },
                None => {
                    seen = Some(i);
                },
            }
        }
        i = i + 1;
    }
    true
}

/// `d` is a save of `w`.
pub open spec fn snapshot_of(w: EcsWorld, d: SaveData) -> bool {
    &&& d.entities@ == w.entities@
    &&& d.next_id == w.next_id
    &&& d.width == w.map.width
    &&& d.height == w.map.height
    &&& d.depth == w.map.depth
    &&& d.tiles@ == w.map.tiles@
    &&& d.status@ == w.map.status@
}

/// `after` is `before` with the save `d` loaded: entities, ids and map come
/// from the save, occupant lists are empty until the next indexing, and the
/// player is the save's one player-marked record.
pub open spec fn loaded_from(before: EcsWorld, after: EcsWorld, d: SaveData) -> bool {
    &&& after.entities@ == d.entities@
    &&& after.next_id == d.next_id
    &&& after.map.width == d.width
    &&& after.map.height == d.height
    &&& after.map.depth == d.depth
    &&& after.map.tiles@ == d.tiles@
    &&& after.map.status@ == d.status@
    &&& forall|i: int| 0 <= i < after.map.size() ==> (#[trigger] after.map.tile_content@[i])@.len() == 0
    &&& exists|k: int|
        is_player_at(d.entities@, k) && after.player == d.entities@[k].id && after.player_pos
            == d.entities@[k].position->0
    &&& after.log == before.log
    &&& after.run_state == RunState::AwaitingInput
}

fn copy_tiles(v: &Vec<TileKind>) -> (r: Vec<TileKind>)
    ensures
        r@ == v@,
{
    let mut r: Vec<TileKind> = Vec::new();
    let mut i: usize = 0;
    while i < v.len()
        invariant
            i <= v@.len(),
            r@ == v@.subrange(0, i as int),
        decreases v@.len() - i,
    {
        r.push(v[i]);
        i = i + 1;
        proof {
            assert(r@ =~= v@.subrange(0, i as int));
        }
    }
    proof {
        assert(r@ =~= v@);
    }
    r
}

fn copy_bytes(v: &Vec<u8>) -> (r: Vec<u8>)
    ensures
        r@ == v@,
{
    let mut r: Vec<u8> = Vec::new();
    let mut i: usize = 0;
    while i < v.len()
        invariant
            i <= v@.len(),
            r@ == v@.subrange(0, i as int),
        decreases v@.len() - i,
    {
        r.push(v[i]);
        i = i + 1;
        proof {
            assert(r@ =~= v@.subrange(0, i as int));
        }
    }
    proof {
        assert(r@ =~= v@);
    }
    r
}

fn copy_entities(v: &Vec<EntityRecord>) -> (r: Vec<EntityRecord>)
    ensures
        r@ == v@,
{
    let mut r: Vec<EntityRecord> = Vec::new();
    let mut i: usize = 0;
    while i < v.len()
        invariant
            i <= v@.len(),
            r@ == v@.subrange(0, i as int),
        decreases v@.len() - i,
    {
        r.push(v[i]);
        i = i + 1;
        proof {
            assert(r@ =~= v@.subrange(0, i as int));
        }
    }
    proof {
        assert(r@ =~= v@);
    }
    r
}

/// What a save captures of the world.
pub fn save_game(world: &EcsWorld) -> (d: SaveData)
    ensures
        snapshot_of(*world, d),
{
    SaveData {
        entities: copy_entities(&world.entities),
        next_id: world.next_id,
        width: world.map.width,
        height: world.map.height,
        depth: world.map.depth,
        tiles: copy_tiles(&world.map.tiles),
        status: copy_bytes(&world.map.status),
    }
}

/// Index of the first player entity with a position.
fn find_player(es: &Vec<EntityRecord>) -> (r: Option<usize>)
    ensures
        match r {
            Some(k) => is_player_at(es@, k as int),
            None => !exists|k: int| is_player_at(es@, k),
        },
{
    let mut k: usize = 0;
    while k < es.len()
        invariant
            k <= es@.len(),
            forall|j: int| 0 <= j < k ==> !((#[trigger] es@[j]).player && es@[j].position is Some),
        decreases es@.len() - k,
    {
        if es[k].player && es[k].position.is_some() {
            return Some(k);
        }
        k = k + 1;
    }
    proof {
        assert forall|k: int| !is_player_at(es@, k) by {
            if 0 <= k < es@.len() {
                assert(!(es@[k].player && es@[k].position is Some));
            }
        }
    }
    None
}

/// Whether every id is distinct and below `next_id`.
fn ids_ok(es: &Vec<EntityRecord>, next_id: u64) -> (r: bool)
    ensures
        r == (ids_unique(es@) && ids_below(es@, next_id)),
{
    let n = es.len();
    let mut a: usize = 0;
    while a < n
        invariant
            n == es@.len(),
            a <= n,
            forall|x: int, y: int| 0 <= x < a && x < y < n ==> (#[trigger] es@[x]).id != (#[trigger] es@[y]).id,
            forall|x: int| 0 <= x < a ==> (#[trigger] es@[x]).id < next_id,
        decreases n - a,
    {
        if es[a].id >= next_id {
            return false;
        }
        let mut b: usize = a + 1;
        while b < n
            invariant
                n == es@.len(),
                a < n,
                a < b <= n,
                forall|y: int| a < y < b ==> es@[a as int].id != (#[trigger] es@[y]).id,
            decreases n - b,
        {
            if es[a].id == es[b].id {
                return false;
            }
            b = b + 1;
        }
        a = a + 1;
    }
    true
}

/// Replaces the world's entities and map with those of the save when it can
/// be loaded, and moves to the game; otherwise leaves the world as it was and
/// stays on the menu's load option. Returns whether it loaded.
pub fn load_game(world: &mut EcsWorld, data: SaveData) -> (loaded: bool)
    requires
        old(world).wf(),
    ensures
        final(world).wf(),
        loaded == valid_save(data),
        loaded ==> loaded_from(*old(world), *final(world), data),
        !loaded ==> final(world).entities == old(world).entities && final(world).map == old(
            world,
        ).map && final(world).player == old(world).player && final(world).next_id == old(
            world,
        ).next_id && final(world).player_pos == old(world).player_pos && final(world).log == old(
            world,
        ).log && final(world).run_state == RunState::MainMenu(MainMenuSelection::LoadGame),
{
    let n = (MAP_WIDTH as usize) * (MAP_HEIGHT as usize);
    let ok = data.width == MAP_WIDTH && data.height == MAP_HEIGHT && data.tiles.len() == n
        && data.status.len() == n && data.next_id <= ID_LIMIT && ids_ok(&data.entities, data.next_id)
        && single_player(&data.entities);
    if !ok {
        world.run_state = after_load(false);
        return false;
    }
    match find_player(&data.entities) {
        None => {
            world.run_state = after_load(false);
            false
        },
        Some(k) => {
            let player = data.entities[k].id;
            let pos = data.entities[k].position.unwrap();
            let mut map = GridMap::new(MAP_WIDTH, MAP_HEIGHT, data.depth);
            let ghost d = data;
            map.tiles = data.tiles;
            map.status = data.status;
            world.entities = data.entities;
            world.next_id = data.next_id;
            world.map = map;
            world.player = player;
            world.player_pos = pos;
            world.run_state = after_load(true);
            proof {
                assert(is_player_at(d.entities@, k as int));
            }
            true
        },
    }
}

/// Loading what was saved from a world gives back the same world: every
/// entity with its id and components, owner references included, the id
/// counter, the map's depth, tiles and statuses, and the same player at the
/// same place.
pub proof fn lemma_save_load_round_trip(w: EcsWorld, d: SaveData, before: EcsWorld, after: EcsWorld)
    requires
        w.wf(),
        exists|k: int|
            0 <= k < w.entities@.len() && (#[trigger] w.entities@[k]).id == w.player
                && w.entities@[k].player && w.entities@[k].position == Some(w.player_pos),
        forall|j: int|
            0 <= j < w.entities@.len() && (#[trigger] w.entities@[j]).player ==> w.entities@[j].id
                == w.player,
        snapshot_of(w, d),
        loaded_from(before, after, d),
    ensures
        valid_save(d),
        after.entities@ == w.entities@,
        after.next_id == w.next_id,
        after.map.depth == w.map.depth,
        after.map.tiles@ == w.map.tiles@,
        after.map.status@ == w.map.status@,
        after.player == w.player,
        after.player_pos == w.player_pos,
{
    let k = choose|k: int|
        0 <= k < w.entities@.len() && (#[trigger] w.entities@[k]).id == w.player
            && w.entities@[k].player && w.entities@[k].position == Some(w.player_pos);
    let j = choose|j: int|
        is_player_at(d.entities@, j) && after.player == d.entities@[j].id && after.player_pos
            == d.entities@[j].position->0;
    assert(w.entities@[j].id == w.player);
    assert(j == k);
    assert forall|a: int, b: int| 0 <= a < b < d.entities@.len() implies !((#[trigger] d.entities@[a]).player
        && (#[trigger] d.entities@[b]).player) by {
        if d.entities@[a].player && d.entities@[b].player {
            assert(w.entities@[a].id == w.player && w.entities@[b].id == w.player);
        }
    }
}

} // verus!
