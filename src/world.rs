//! The entity world: records and their components, the spawn table, and
//! the lifecycle of levels and games.

use crate::builder::{build_level, builder_kind_for, plan_ok, BuildResult, BuilderKind};
use crate::common::{connected_from, single_farthest_exit, MAX_STEPS};
use crate::grid::{idx_of, xy_of, GridMap, Rect, TileKind, MAX_TILES};
use crate::rng::rng_range;
use crate::state::{MainMenuSelection, Position, RunState};
use rltk::RandomNumberGenerator;
use vstd::prelude::*;

verus! {

pub const MAP_WIDTH: i32 = 64;

pub const MAP_HEIGHT: i32 = 64;

pub const PLAYER_HP: i32 = 30;

pub const PLAYER_DEFENSE: i32 = 2;

pub const PLAYER_POWER: i32 = 5;

pub const VIEW_RANGE: i32 = 8;

/// Entity ids stay below this, far from overflow.
pub const ID_LIMIT: u64 = 0x4000_0000_0000_0000;

/// Deepest level whose depth still changes the spawn table.
pub const TABLE_DEPTH_CAP: i32 = 100;

#[derive(PartialEq, Eq, Structural, Clone, Copy, Debug)]
pub struct CombatStats {
    pub max_hp: i32,
    pub hp: i32,
    pub defense: i32,
    pub power: i32,
}

#[derive(PartialEq, Eq, Structural, Clone, Copy, Debug)]
pub struct Viewshed {
    pub range: i32,
    /// Visibility must be recomputed.
    pub dirty: bool,
}

#[derive(PartialEq, Eq, Structural, Clone, Copy, Debug)]
pub enum EquipSlot {
    Melee,
    Shield,
}

/// What the spawner can place.
#[derive(PartialEq, Eq, Structural, Clone, Copy, Debug)]
pub enum SpawnKind {
    Goblin,
    Orc,
    HealthPotion,
    MagicMissileScroll,
    FireballScroll,
    Dagger,
    Shield,
    Longsword,
}

#[derive(PartialEq, Eq, Structural, Clone, Copy, Debug)]
pub struct UseIntent {
    pub item: u64,
    pub target: Option<Position>,
}

/// One entity: its id and every component it may carry.
#[derive(PartialEq, Eq, Structural, Clone, Copy, Debug)]
pub struct EntityRecord {
    pub id: u64,
    pub kind: Option<SpawnKind>,
    pub player: bool,
    pub monster: bool,
    pub item: bool,
    pub position: Option<Position>,
    pub stats: Option<CombatStats>,
    pub viewshed: Option<Viewshed>,
    pub blocks_tile: bool,
    pub consumable: bool,
    pub provides_healing: Option<i32>,
    pub inflicts_damage: Option<i32>,
    pub ranged: Option<i32>,
    pub area_of_effect: Option<i32>,
    pub equipable: Option<EquipSlot>,
    pub melee_bonus: i32,
    pub defense_bonus: i32,
    /// Owner of the backpack that holds it.
    pub in_backpack: Option<u64>,
    /// Owner that has it equipped.
    pub equipped: Option<u64>,
    pub wants_to_melee: Option<u64>,
    /// Damage waiting to be applied this turn.
    pub suffer_damage: i32,
    pub wants_to_use: Option<UseIntent>,
    pub wants_to_drop: Option<u64>,
    pub wants_to_remove: Option<u64>,
    pub wants_to_pickup: Option<u64>,
}

#[derive(PartialEq, Eq, Structural, Clone, Copy, Debug)]
pub enum LogEntry {
    Welcome,
    Descended,
}

/// The simulation context: every entity, the map, the log and the run state.
pub struct EcsWorld {
    pub entities: Vec<EntityRecord>,
    pub next_id: u64,
    pub player: u64,
    pub player_pos: Position,
    pub map: GridMap,
    pub log: Vec<LogEntry>,
    pub run_state: RunState,
}

pub open spec fn ids_unique(es: Seq<EntityRecord>) -> bool {
    forall|a: int, b: int| 0 <= a < b < es.len() ==> (#[trigger] es[a]).id != (#[trigger] es[b]).id
}

pub open spec fn ids_below(es: Seq<EntityRecord>, bound: u64) -> bool {
    forall|a: int| 0 <= a < es.len() ==> (#[trigger] es[a]).id < bound
}

/// Some entity has the id.
pub open spec fn has_id(es: Seq<EntityRecord>, id: u64) -> bool {
    exists|k: int| 0 <= k < es.len() && (#[trigger] es[k]).id == id
}

/// An entity kept across a level change: the player and what the player
/// carries or wears.
pub open spec fn retained(e: EntityRecord, player: u64) -> bool {
    e.id == player || e.in_backpack == Some(player) || e.equipped == Some(player)
}

impl EcsWorld {
    pub open spec fn wf(&self) -> bool {
        &&& self.map.wf()
        &&& self.map.width == MAP_WIDTH
        &&& self.map.height == MAP_HEIGHT
        &&& ids_unique(self.entities@)
        &&& ids_below(self.entities@, self.next_id)
        &&& self.next_id <= ID_LIMIT
    }

    /// Index of the entity with id `id`, if any.
    pub fn find(&self, id: u64) -> (r: Option<usize>)
        ensures
            match r {
                Some(k) => k < self.entities@.len() && self.entities@[k as int].id == id,
                None => !has_id(self.entities@, id),
            },
    {
        let mut k: usize = 0;
        while k < self.entities.len()
            invariant
                k <= self.entities@.len(),
                forall|m: int| 0 <= m < k ==> (#[trigger] self.entities@[m]).id != id,
            decreases self.entities@.len() - k,
        {
            if self.entities[k].id == id {
                return Some(k);
            }
            k = k + 1;
        }
        None
    }
}

/// A record with an id and no component.
pub open spec fn blank_spec(id: u64) -> EntityRecord {
    EntityRecord {
        id,
        kind: None,
        player: false,
        monster: false,
        item: false,
        position: None,
        stats: None,
        viewshed: None,
        blocks_tile: false,
        consumable: false,
        provides_healing: None,
        inflicts_damage: None,
        ranged: None,
        area_of_effect: None,
        equipable: None,
        melee_bonus: 0,
        defense_bonus: 0,
        in_backpack: None,
        equipped: None,
        wants_to_melee: None,
        suffer_damage: 0,
        wants_to_use: None,
        wants_to_drop: None,
        wants_to_remove: None,
        wants_to_pickup: None,
    }
}

pub fn blank(id: u64) -> (e: EntityRecord)
    ensures
        e == blank_spec(id),
{
    EntityRecord {
        id,
        kind: None,
        player: false,
        monster: false,
        item: false,
        position: None,
        stats: None,
        viewshed: None,
        blocks_tile: false,
        consumable: false,
        provides_healing: None,
        inflicts_damage: None,
        ranged: None,
        area_of_effect: None,
        equipable: None,
        melee_bonus: 0,
        defense_bonus: 0,
        in_backpack: None,
        equipped: None,
        wants_to_melee: None,
        suffer_damage: 0,
        wants_to_use: None,
        wants_to_drop: None,
        wants_to_remove: None,
        wants_to_pickup: None,
    }
}

/// The player as spawned: full health, a fresh view.
pub open spec fn player_spec(id: u64, x: i32, y: i32) -> EntityRecord {
    EntityRecord {
        player: true,
        position: Some(Position { x, y }),
        stats: Some(
            CombatStats {
                max_hp: PLAYER_HP,
                hp: PLAYER_HP,
                defense: PLAYER_DEFENSE,
                power: PLAYER_POWER,
            },
        ),
        viewshed: Some(Viewshed { range: VIEW_RANGE, dirty: true }),
        ..blank_spec(id)
    }
}

/// A finished level around a start: every open tile reachable from it, and
/// one farthest stairs tile.
pub open spec fn level_ready(map: GridMap, start: Position) -> bool {
    let s = idx_of(map.width as int, start.x as int, start.y as int);
    &&& map.in_bounds(start.x as int, start.y as int)
    &&& map.tiles@[s] != TileKind::Wall
    &&& connected_from(map.tiles@, map.width as int, s, MAX_STEPS as nat)
    &&& single_farthest_exit(map.tiles@, map.width as int, s, MAX_STEPS as nat)
}

/// Depth as the spawn table reads it.
pub open spec fn table_depth(depth: i32) -> int {
    if depth < 1 {
        1
    } else if depth > TABLE_DEPTH_CAP {
        TABLE_DEPTH_CAP as int
    } else {
        depth as int
    }
}

/// Weight of each kind in the spawn table at `depth`; the longsword only
/// appears from depth 6 on.
pub open spec fn spawn_weight(kind: SpawnKind, depth: i32) -> int {
    let d = table_depth(depth);
    match kind {
        SpawnKind::Goblin => 10,
        SpawnKind::Orc => 1 + d,
        SpawnKind::HealthPotion => 7,
        SpawnKind::MagicMissileScroll => 4,
        SpawnKind::FireballScroll => 2 + d,
        SpawnKind::Dagger => 3,
        SpawnKind::Shield => 3,
        SpawnKind::Longsword => if d >= 6 {
            d - 5
        } else {
            0
        },
    }
}

pub open spec fn total_weight(depth: i32) -> int {
    spawn_weight(SpawnKind::Goblin, depth) + spawn_weight(SpawnKind::Orc, depth) + spawn_weight(
        SpawnKind::HealthPotion,
        depth,
    ) + spawn_weight(SpawnKind::MagicMissileScroll, depth) + spawn_weight(
        SpawnKind::FireballScroll,
        depth,
    ) + spawn_weight(SpawnKind::Dagger, depth) + spawn_weight(SpawnKind::Shield, depth)
        + spawn_weight(SpawnKind::Longsword, depth)
}

/// The kind whose slice of the table holds `roll`, the kinds laid out in
/// declaration order.
pub open spec fn pick_spec(roll: int, depth: i32) -> SpawnKind {
    let w0 = spawn_weight(SpawnKind::Goblin, depth);
    let w1 = w0 + spawn_weight(SpawnKind::Orc, depth);
    let w2 = w1 + spawn_weight(SpawnKind::HealthPotion, depth);
    let w3 = w2 + spawn_weight(SpawnKind::MagicMissileScroll, depth);
    let w4 = w3 + spawn_weight(SpawnKind::FireballScroll, depth);
    let w5 = w4 + spawn_weight(SpawnKind::Dagger, depth);
    let w6 = w5 + spawn_weight(SpawnKind::Shield, depth);
    if roll < w0 {
        SpawnKind::Goblin
    } else if roll < w1 {
        SpawnKind::Orc
    } else if roll < w2 {
        SpawnKind::HealthPotion
    } else if roll < w3 {
        SpawnKind::MagicMissileScroll
    } else if roll < w4 {
        SpawnKind::FireballScroll
    } else if roll < w5 {
        SpawnKind::Dagger
    } else if roll < w6 {
        SpawnKind::Shield
    } else {
        SpawnKind::Longsword
    }
}

pub fn spawn_weight_of(kind: SpawnKind, depth: i32) -> (w: i32)
    ensures
        w == spawn_weight(kind, depth),
        0 <= w <= 200,
{
    let d = if depth < 1 {
        1
    } else if depth > TABLE_DEPTH_CAP {
        TABLE_DEPTH_CAP
    } else {
        depth
    };
    match kind {
        SpawnKind::Goblin => 10,
        SpawnKind::Orc => 1 + d,
        SpawnKind::HealthPotion => 7,
        SpawnKind::MagicMissileScroll => 4,
        SpawnKind::FireballScroll => 2 + d,
        SpawnKind::Dagger => 3,
        SpawnKind::Shield => 3,
        SpawnKind::Longsword => if d >= 6 {
            d - 5
        } else {
            0
        },
    }
}

pub fn total_weight_of(depth: i32) -> (t: i32)
    ensures
        t == total_weight(depth),
        t > 0,
{
    spawn_weight_of(SpawnKind::Goblin, depth) + spawn_weight_of(SpawnKind::Orc, depth)
        + spawn_weight_of(SpawnKind::HealthPotion, depth) + spawn_weight_of(
        SpawnKind::MagicMissileScroll,
        depth,
    ) + spawn_weight_of(SpawnKind::FireballScroll, depth) + spawn_weight_of(
        SpawnKind::Dagger,
        depth,
    ) + spawn_weight_of(SpawnKind::Shield, depth) + spawn_weight_of(SpawnKind::Longsword, depth)
}

/// Picks from the weighted table with a roll in `[0, total_weight(depth))`.
pub fn pick_spawn(roll: i32, depth: i32) -> (k: SpawnKind)
    ensures
        k == pick_spec(roll as int, depth),
{
    let w0 = spawn_weight_of(SpawnKind::Goblin, depth);
    let w1 = w0 + spawn_weight_of(SpawnKind::Orc, depth);
    let w2 = w1 + spawn_weight_of(SpawnKind::HealthPotion, depth);
    let w3 = w2 + spawn_weight_of(SpawnKind::MagicMissileScroll, depth);
    let w4 = w3 + spawn_weight_of(SpawnKind::FireballScroll, depth);
    let w5 = w4 + spawn_weight_of(SpawnKind::Dagger, depth);
    let w6 = w5 + spawn_weight_of(SpawnKind::Shield, depth);
    if roll < w0 {
        SpawnKind::Goblin
    } else if roll < w1 {
        SpawnKind::Orc
    } else if roll < w2 {
        SpawnKind::HealthPotion
    } else if roll < w3 {
        SpawnKind::MagicMissileScroll
    } else if roll < w4 {
        SpawnKind::FireballScroll
    } else if roll < w5 {
        SpawnKind::Dagger
    } else if roll < w6 {
        SpawnKind::Shield
    } else {
        SpawnKind::Longsword
    }
}

/// `kind` can come out of the table at `depth`.
pub open spec fn drawable(kind: SpawnKind, depth: i32) -> bool {
    exists|roll: int| 0 <= roll < total_weight(depth) && #[trigger] pick_spec(roll, depth) == kind
}

/// Where a spawned entity may stand: on a floor tile of the map (so neither a
/// wall nor the stairs) other than the player's start.
pub open spec fn spawn_spot_ok(map: GridMap, start: Position, e: EntityRecord) -> bool {
    &&& e.position is Some
    &&& map.in_bounds(e.position->0.x as int, e.position->0.y as int)
    &&& map.tiles@[idx_of(map.width as int, e.position->0.x as int, e.position->0.y as int)]
        == TileKind::Floor
    &&& e.position->0 != start
}

/// A tile index names the tile at its coordinates.
pub proof fn lemma_idx_of_xy(w: int, h: int, i: int)
    requires
        w >= 1,
        0 <= i < w * h,
    ensures
        idx_of(w, xy_of(w, i).0, xy_of(w, i).1) == i,
        0 <= xy_of(w, i).0 < w,
        0 <= xy_of(w, i).1 < h,
{
    vstd::arithmetic::div_mod::lemma_fundamental_div_mod(i, w);
    assert((i / w) * w == w * (i / w)) by (nonlinear_arith);
    assert(i / w < h) by (nonlinear_arith)
        requires
            w >= 1,
            0 <= i < w * h,
    ;
    assert(i / w >= 0) by (nonlinear_arith)
        requires
            w >= 1,
            0 <= i,
    ;
}

/// A freshly spawned entity of the world's level: an id from `first_id` on,
/// a valid spot, and the starting components of a kind the table can draw.
pub open spec fn fresh_spawn(w: EcsWorld, first_id: u64, e: EntityRecord) -> bool {
    &&& e.id >= first_id
    &&& spawn_spot_ok(w.map, w.player_pos, e)
    &&& e.kind is Some
    &&& drawable(e.kind->0, w.map.depth)
    &&& e == spawned_spec(e.id, e.kind->0, e.position->0)
}

/// The records from index `from` on are fresh spawns on distinct tiles.
pub open spec fn fresh_spawns_from(w: EcsWorld, first_id: u64, from: int) -> bool {
    &&& forall|k: int| from <= k < w.entities@.len() ==> fresh_spawn(w, first_id, #[trigger] w.entities@[k])
    &&& forall|a: int, b: int|
        from <= a < b < w.entities@.len() ==> (#[trigger] w.entities@[a]).position
            != (#[trigger] w.entities@[b]).position
}

/// The start that the builder of `depth` gives, from the rooms it carved:
/// rooms and corridors always place a room and start in the first one's
/// centre; the cellular builder carves no rooms.
pub open spec fn start_for(depth: i32, rooms: Seq<Rect>, pos: Position) -> bool {
    &&& builder_kind_for(depth) == BuilderKind::CellularRegions ==> rooms.len() == 0
    &&& builder_kind_for(depth) == BuilderKind::RoomsAndCorridors ==> rooms.len() > 0
        && (pos.x as int, pos.y as int) == rooms[0].center_spec()
}

/// `new` is `old` after a level change: the retained records, in order, the
/// player's moved to the new start and healed, the others as they were; then
/// fresh spawns of the new level; one level deeper, with a descent entry.
pub open spec fn descended(old: EcsWorld, new: EcsWorld) -> bool {
    let kept = old.entities@.filter(|e: EntityRecord| retained(e, old.player));
    &&& new.wf()
    &&& new.player == old.player
    &&& new.player < new.next_id
    &&& new.log@ == old.log@.push(LogEntry::Descended)
    &&& new.map.depth == old.map.depth + 1
    &&& level_ready(new.map, new.player_pos)
    &&& old.next_id <= new.next_id <= old.next_id + MAX_TILES
    &&& new.entities@.len() >= kept.len()
    &&& forall|k: int|
        0 <= k < kept.len() ==> #[trigger] new.entities@[k] == if kept[k].id == old.player {
            healed_on_descent(moved_to(kept[k], new.player_pos))
        } else {
            kept[k]
        }
    &&& fresh_spawns_from(new, old.next_id, kept.len() as int)
    &&& forall|a: int|
        0 <= a < old.entities@.len() ==> (has_id(new.entities@, (#[trigger] old.entities@[a]).id)
            <==> retained(old.entities@[a], old.player))
}

/// `new` is a new game after `old`: a fresh player first, at the start of a
/// new depth-1 level, then that level's fresh spawns, and a log holding only
/// the welcome.
pub open spec fn reset_world(old: EcsWorld, new: EcsWorld) -> bool {
    &&& new.wf()
    &&& new.log@ == seq![LogEntry::Welcome]
    &&& new.map.depth == 1
    &&& level_ready(new.map, new.player_pos)
    &&& new.player == old.next_id
    &&& new.player < new.next_id <= old.next_id + MAX_TILES + 1
    &&& new.entities@.len() >= 1
    &&& new.entities@[0] == moved_to(player_spec(new.player, 0, 0), new.player_pos)
    &&& fresh_spawns_from(new, (old.next_id + 1) as u64, 1)
}

/// Entities spawned from a plan stand on distinct floor tiles other than the
/// start.
proof fn lemma_spawned_spots(
    map: GridMap,
    start: Position,
    plan: Seq<usize>,
    spawned: Seq<EntityRecord>,
    fin: Seq<EntityRecord>,
    n0: int,
    next: u64,
    depth: i32,
)
    requires
        map.wf(),
        map.width == MAP_WIDTH,
        map.height == MAP_HEIGHT,
        map.in_bounds(start.x as int, start.y as int),
        plan_ok(map.tiles@, idx_of(MAP_WIDTH as int, start.x as int, start.y as int), plan),
        0 <= n0,
        next + plan.len() <= ID_LIMIT,
        spawned.len() == n0 + plan.len(),
        fin.len() == spawned.len(),
        forall|m: int|
            0 <= m < plan.len() ==> {
                let e = #[trigger] spawned[n0 + m];
                let (x, y) = xy_of(MAP_WIDTH as int, plan[m] as int);
                &&& e.kind is Some
                &&& drawable(e.kind->0, depth)
                &&& e == spawned_spec((next + m) as u64, e.kind->0, Position { x: x as i32, y: y as i32 })
            },
        forall|k: int| n0 <= k < fin.len() ==> #[trigger] fin[k] == spawned[k],
    ensures
        forall|k: int|
            n0 <= k < fin.len() ==> {
                let e = #[trigger] fin[k];
                &&& spawn_spot_ok(map, start, e)
                &&& e.kind is Some
                &&& drawable(e.kind->0, depth)
                &&& e == spawned_spec(e.id, e.kind->0, e.position->0)
                &&& e.id >= next
            },
        forall|a: int, b: int|
            n0 <= a < b < fin.len() ==> (#[trigger] fin[a]).position != (#[trigger] fin[b]).position,
{
    let w = MAP_WIDTH as int;
    let h = MAP_HEIGHT as int;
    crate::grid::lemma_index_round_trip(w, h, start.x as int, start.y as int);
    assert forall|k: int| n0 <= k < fin.len() implies {
        let e = #[trigger] fin[k];
        &&& spawn_spot_ok(map, start, e)
        &&& e.kind is Some
        &&& drawable(e.kind->0, depth)
        &&& e == spawned_spec(e.id, e.kind->0, e.position->0)
        &&& e.id >= next
    } by {
        let m = k - n0;
        assert(spawned[n0 + m] == fin[k]);
        lemma_idx_of_xy(w, h, plan[m] as int);
    }
    assert forall|a: int, b: int| n0 <= a < b < fin.len() implies (#[trigger] fin[a]).position
        != (#[trigger] fin[b]).position by {
        assert(spawned[n0 + (a - n0)] == fin[a]);
        assert(spawned[n0 + (b - n0)] == fin[b]);
        lemma_idx_of_xy(w, h, plan[a - n0] as int);
        lemma_idx_of_xy(w, h, plan[b - n0] as int);
    }
}

/// The components each kind starts with.
pub open spec fn spawned_spec(id: u64, kind: SpawnKind, pos: Position) -> EntityRecord {
    let base = EntityRecord { kind: Some(kind), position: Some(pos), ..blank_spec(id) };
    match kind {
        SpawnKind::Goblin => EntityRecord {
            monster: true,
            blocks_tile: true,
            stats: Some(CombatStats { max_hp: 8, hp: 8, defense: 1, power: 3 }),
            viewshed: Some(Viewshed { range: VIEW_RANGE, dirty: true }),
            ..base
        },
        SpawnKind::Orc => EntityRecord {
            monster: true,
            blocks_tile: true,
            stats: Some(CombatStats { max_hp: 16, hp: 16, defense: 1, power: 4 }),
            viewshed: Some(Viewshed { range: VIEW_RANGE, dirty: true }),
            ..base
        },
        SpawnKind::HealthPotion => EntityRecord {
            item: true,
            consumable: true,
            provides_healing: Some(8),
            ..base
        },
        SpawnKind::MagicMissileScroll => EntityRecord {
            item: true,
            consumable: true,
            ranged: Some(6),
            inflicts_damage: Some(8),
            ..base
        },
        SpawnKind::FireballScroll => EntityRecord {
            item: true,
            consumable: true,
            ranged: Some(6),
            inflicts_damage: Some(20),
            area_of_effect: Some(3),
            ..base
        },
        SpawnKind::Dagger => EntityRecord {
            item: true,
            equipable: Some(EquipSlot::Melee),
            melee_bonus: 2,
            ..base
        },
        SpawnKind::Shield => EntityRecord {
            item: true,
            equipable: Some(EquipSlot::Shield),
            defense_bonus: 1,
            ..base
        },
        SpawnKind::Longsword => EntityRecord {
            item: true,
            equipable: Some(EquipSlot::Melee),
            melee_bonus: 4,
            ..base
        },
    }
}

pub fn make_spawned(id: u64, kind: SpawnKind, pos: Position) -> (e: EntityRecord)
    ensures
        e == spawned_spec(id, kind, pos),
{
    let base = EntityRecord { kind: Some(kind), position: Some(pos), ..blank(id) };
    match kind {
        SpawnKind::Goblin => EntityRecord {
            monster: true,
            blocks_tile: true,
            stats: Some(CombatStats { max_hp: 8, hp: 8, defense: 1, power: 3 }),
            viewshed: Some(Viewshed { range: VIEW_RANGE, dirty: true }),
            ..base
        },
        SpawnKind::Orc => EntityRecord {
            monster: true,
            blocks_tile: true,
            stats: Some(CombatStats { max_hp: 16, hp: 16, defense: 1, power: 4 }),
            viewshed: Some(Viewshed { range: VIEW_RANGE, dirty: true }),
            ..base
        },
        SpawnKind::HealthPotion => EntityRecord {
            item: true,
            consumable: true,
            provides_healing: Some(8),
            ..base
        },
        SpawnKind::MagicMissileScroll => EntityRecord {
            item: true,
            consumable: true,
            ranged: Some(6),
            inflicts_damage: Some(8),
            ..base
        },
        SpawnKind::FireballScroll => EntityRecord {
            item: true,
            consumable: true,
            ranged: Some(6),
            inflicts_damage: Some(20),
            area_of_effect: Some(3),
            ..base
        },
        SpawnKind::Dagger => EntityRecord {
            item: true,
            equipable: Some(EquipSlot::Melee),
            melee_bonus: 2,
            ..base
        },
        SpawnKind::Shield => EntityRecord {
            item: true,
            equipable: Some(EquipSlot::Shield),
            defense_bonus: 1,
            ..base
        },
        SpawnKind::Longsword => EntityRecord {
            item: true,
            equipable: Some(EquipSlot::Melee),
            melee_bonus: 4,
            ..base
        },
    }
}

/// `e` after the player moved to `pos`: its position follows and its view is
/// marked for recomputation, where it has those components.
pub open spec fn moved_to(e: EntityRecord, pos: Position) -> EntityRecord {
    EntityRecord {
        position: if e.position is Some {
            Some(pos)
        } else {
            None
        },
        viewshed: match e.viewshed {
            Some(v) => Some(Viewshed { dirty: true, ..v }),
            None => None,
        },
        ..e
    }
}

/// Half of a maximum health, rounded toward zero.
pub open spec fn half_of(max_hp: i32) -> i32 {
    if max_hp >= 0 {
        (max_hp / 2) as i32
    } else {
        (-((-max_hp) / 2)) as i32
    }
}

/// The player's health after descending: at least half its maximum, never
/// less than before.
pub open spec fn healed_on_descent(e: EntityRecord) -> EntityRecord {
    match e.stats {
        Some(s) => EntityRecord {
            stats: Some(
                CombatStats { hp: if s.hp >= half_of(s.max_hp) {
                    s.hp
                } else {
                    half_of(s.max_hp)
                }, ..s },
            ),
            ..e
        },
        None => e,
    }
}

/// Whether a level change keeps `e`.
pub fn is_retained(e: &EntityRecord, player: u64) -> (r: bool)
    ensures
        r == retained(*e, player),
{
    let in_bag = match e.in_backpack {
        Some(o) => o == player,
        None => false,
    };
    let worn = match e.equipped {
        Some(o) => o == player,
        None => false,
    };
    e.id == player || in_bag || worn
}

impl EcsWorld {
    /// Fields other than the entities that a change of entities leaves alone.
    pub open spec fn same_context(&self, other: &EcsWorld) -> bool {
        &&& self.player == other.player
        &&& self.player_pos == other.player_pos
        &&& self.map == other.map
        &&& self.log == other.log
        &&& self.run_state == other.run_state
    }

    fn push_entity(&mut self, e: EntityRecord)
        requires
            old(self).wf(),
            old(self).next_id < ID_LIMIT,
            e.id == old(self).next_id,
        ensures
            final(self).wf(),
            final(self).same_context(old(self)),
            final(self).entities@ == old(self).entities@.push(e),
            final(self).next_id == old(self).next_id + 1,
    {
        self.entities.push(e);
        self.next_id = self.next_id + 1;
    }

    /// Creates the player at `(x, y)` with its starting components.
    pub fn spawn_player(&mut self, x: i32, y: i32) -> (id: u64)
        requires
            old(self).wf(),
            old(self).next_id < ID_LIMIT,
        ensures
            final(self).wf(),
            final(self).same_context(old(self)),
            id == old(self).next_id,
            final(self).next_id == old(self).next_id + 1,
            final(self).entities@ == old(self).entities@.push(player_spec(id, x, y)),
    {
        let id = self.next_id;
        let e = EntityRecord {
            player: true,
            position: Some(Position { x, y }),
            stats: Some(
                CombatStats {
                    max_hp: PLAYER_HP,
                    hp: PLAYER_HP,
                    defense: PLAYER_DEFENSE,
                    power: PLAYER_POWER,
                },
            ),
            viewshed: Some(Viewshed { range: VIEW_RANGE, dirty: true }),
            ..blank(id)
        };
        self.push_entity(e);
        id
    }

    /// Creates one entity on each tile of the plan, its kind drawn from the
    /// weighted table of `depth`.
    pub fn spawn_from_plan(&mut self, rng: &mut RandomNumberGenerator, plan: &Vec<usize>, depth: i32)
        requires
            old(self).wf(),
            forall|k: int| 0 <= k < plan@.len() ==> (#[trigger] plan@[k]) < old(self).map.size(),
            old(self).next_id + plan@.len() <= ID_LIMIT,
        ensures
            final(self).wf(),
            final(self).same_context(old(self)),
            final(self).next_id == old(self).next_id + plan@.len(),
            final(self).entities@.len() == old(self).entities@.len() + plan@.len(),
            forall|k: int|
                0 <= k < old(self).entities@.len() ==> #[trigger] final(self).entities@[k]
                    == old(self).entities@[k],
            forall|m: int|
                0 <= m < plan@.len() ==> {
                    let e = #[trigger] final(self).entities@[old(self).entities@.len() + m];
                    let (x, y) = xy_of(MAP_WIDTH as int, plan@[m] as int);
                    &&& e.kind is Some
                    &&& drawable(e.kind->0, depth)
                    &&& e == spawned_spec(
                        (old(self).next_id + m) as u64,
                        e.kind->0,
                        Position { x: x as i32, y: y as i32 },
                    )
                },
    {
        let total = total_weight_of(depth);
        let ghost n0 = old(self).entities@.len();
        let mut m: usize = 0;
        while m < plan.len()
            invariant
                self.wf(),
                self.same_context(old(self)),
                m <= plan@.len(),
                forall|k: int| 0 <= k < plan@.len() ==> (#[trigger] plan@[k]) < self.map.size(),
                old(self).next_id + plan@.len() <= ID_LIMIT,
                self.next_id == old(self).next_id + m,
                self.entities@.len() == n0 + m,
                n0 == old(self).entities@.len(),
                total > 0,
                total == total_weight(depth),
                forall|k: int|
                    0 <= k < n0 ==> #[trigger] self.entities@[k] == old(self).entities@[k],
                forall|q: int|
                    0 <= q < m ==> {
                        let e = #[trigger] self.entities@[n0 + q];
                        let (x, y) = xy_of(MAP_WIDTH as int, plan@[q] as int);
                        &&& e.kind is Some
                        &&& drawable(e.kind->0, depth)
                        &&& e == spawned_spec(
                            (old(self).next_id + q) as u64,
                            e.kind->0,
                            Position { x: x as i32, y: y as i32 },
                        )
                    },
            decreases plan@.len() - m,
        {
            let roll = rng_range(rng, 0, total);
            let kind = pick_spawn(roll, depth);
            proof {
                assert(pick_spec(roll as int, depth) == kind);
                assert(drawable(kind, depth));
            }
            let (x, y) = self.map.idx_xy(plan[m]);
            let e = make_spawned(self.next_id, kind, Position { x, y });
            self.push_entity(e);
            m = m + 1;
        }
    }

    /// Ids of every entity that a level change deletes: all but the player and
    /// what the player carries or wears, in order.
    pub fn entities_to_remove_on_level_change(&self) -> (r: Vec<u64>)
        ensures
            r@ == self.entities@.filter(|e: EntityRecord| !retained(e, self.player)).map_values(
                |e: EntityRecord| e.id,
            ),
    {
        let ghost pred = |e: EntityRecord| !retained(e, self.player);
        let ghost idf = |e: EntityRecord| e.id;
        let mut r: Vec<u64> = Vec::new();
        let mut i: usize = 0;
        while i < self.entities.len()
            invariant
                i <= self.entities@.len(),
                pred == (|e: EntityRecord| !retained(e, self.player)),
                idf == (|e: EntityRecord| e.id),
                r@ == self.entities@.subrange(0, i as int).filter(pred).map_values(idf),
            decreases self.entities@.len() - i,
        {
            let e = self.entities[i];
            proof {
                assert(self.entities@.subrange(0, i + 1) =~= self.entities@.subrange(
                    0,
                    i as int,
                ).push(e));
                self.entities@.subrange(0, i as int).lemma_filter_push(e, pred);
            }
            let keep = is_retained(&e, self.player);
            proof {
                assert(self.entities@.subrange(0, i + 1).last() == e);
            }
            if !keep {
                r.push(e.id);
                proof {
                    let f = self.entities@.subrange(0, i as int).filter(pred);
                    assert(f.push(e).map_values(idf) =~= f.map_values(idf).push(e.id));
                }
            }
            i = i + 1;
        }
        proof {
            assert(self.entities@.subrange(0, self.entities@.len() as int) =~= self.entities@);
        }
        r
    }

    /// Deletes every entity that a level change does not keep.
    fn retain_player_owned(&mut self)
        requires
            old(self).wf(),
        ensures
            final(self).wf(),
            final(self).same_context(old(self)),
            final(self).next_id == old(self).next_id,
            final(self).entities@ == old(self).entities@.filter(
                |e: EntityRecord| retained(e, old(self).player),
            ),
    {
        let ghost pred = |e: EntityRecord| retained(e, self.player);
        let ghost es = self.entities@;
        let mut kept: Vec<EntityRecord> = Vec::new();
        let ghost mut src: Seq<int> = Seq::empty();
        let mut i: usize = 0;
        while i < self.entities.len()
            invariant
                i <= es.len(),
                es == self.entities@,
                self.wf(),
                pred == (|e: EntityRecord| retained(e, self.player)),
                kept@ == es.subrange(0, i as int).filter(pred),
                src.len() == kept@.len(),
                forall|a: int| 0 <= a < src.len() ==> 0 <= #[trigger] src[a] < i && kept@[a] == es[src[a]],
                forall|a: int, b: int| 0 <= a < b < src.len() ==> #[trigger] src[a] < #[trigger] src[b],
            decreases es.len() - i,
        {
            let e = self.entities[i];
            proof {
                assert(es.subrange(0, i + 1) =~= es.subrange(0, i as int).push(e));
                es.subrange(0, i as int).lemma_filter_push(e, pred);
            }
            proof {
                assert(es.subrange(0, i + 1).last() == e);
            }
            if is_retained(&e, self.player) {
                kept.push(e);
                proof {
                    src = src.push(i as int);
                }
            }
            i = i + 1;
        }
        proof {
            assert(es.subrange(0, es.len() as int) =~= es);
            assert forall|a: int, b: int| 0 <= a < b < kept@.len() implies (#[trigger] kept@[a]).id
                != (#[trigger] kept@[b]).id by {
                assert(src[a] < src[b]);
            }
            assert forall|a: int| 0 <= a < kept@.len() implies (#[trigger] kept@[a]).id
                < self.next_id by {
                assert(kept@[a] == es[src[a]]);
            }
        }
        self.entities = kept;
    }

    /// Moves the player's record to `pos` and marks its view for recomputation.
    pub(crate) fn relocate_player(&mut self, pos: Position)
        requires
            old(self).wf(),
        ensures
            final(self).wf(),
            final(self).player == old(self).player,
            final(self).map == old(self).map,
            final(self).log == old(self).log,
            final(self).run_state == old(self).run_state,
            final(self).next_id == old(self).next_id,
            final(self).player_pos == pos,
            final(self).entities@.len() == old(self).entities@.len(),
            forall|k: int|
                0 <= k < old(self).entities@.len() ==> #[trigger] final(self).entities@[k] == if old(self).entities@[k].id == old(self).player {
                    moved_to(old(self).entities@[k], pos)
                } else {
                    old(self).entities@[k]
                },
    {
        self.player_pos = pos;
        let mut i: usize = 0;
        while i < self.entities.len()
            invariant
                i <= self.entities@.len(),
                self.wf(),
                self.player == old(self).player,
                self.map == old(self).map,
                self.log == old(self).log,
                self.run_state == old(self).run_state,
                self.next_id == old(self).next_id,
                self.player_pos == pos,
                self.entities@.len() == old(self).entities@.len(),
                forall|k: int|
                    0 <= k < self.entities@.len() ==> #[trigger] self.entities@[k] == if k < i
                        && old(self).entities@[k].id == old(self).player {
                        moved_to(old(self).entities@[k], pos)
                    } else {
                        old(self).entities@[k]
                    },
            decreases self.entities@.len() - i,
        {
            let e = self.entities[i];
            if e.id == self.player {
                let position = if e.position.is_some() {
                    Some(pos)
                } else {
                    None
                };
                let viewshed = match e.viewshed {
                    Some(v) => Some(Viewshed { dirty: true, ..v }),
                    None => None,
                };
                self.entities.set(i, EntityRecord { position, viewshed, ..e });
            }
            i = i + 1;
        }
    }

    /// Raises the player's health to half its maximum if it is lower.
    fn heal_player_on_descent(&mut self)
        requires
            old(self).wf(),
        ensures
            final(self).wf(),
            final(self).same_context(old(self)),
            final(self).next_id == old(self).next_id,
            final(self).entities@.len() == old(self).entities@.len(),
            forall|k: int|
                0 <= k < old(self).entities@.len() ==> #[trigger] final(self).entities@[k] == if old(self).entities@[k].id == old(self).player {
                    healed_on_descent(old(self).entities@[k])
                } else {
                    old(self).entities@[k]
                },
    {
        match self.find(self.player) {
            Some(k) => {
                let e = self.entities[k];
                match e.stats {
                    Some(s) => {
                        let half = s.max_hp / 2;
                        let hp = if s.hp >= half {
                            s.hp
                        } else {
                            half
                        };
                        self.entities.set(k, EntityRecord { stats: Some(CombatStats { hp, ..s }), ..e });
                    },
                    None => {},
                }
            },
            None => {},
        }
    }

    /// Builds the level at `new_depth`, populates it and moves the player to
    /// its start; hands back the rooms the builder carved.
    pub fn generate_world_map(
        &mut self,
        rng: &mut RandomNumberGenerator,
        new_depth: i32,
        cell_keys: &Vec<i32>,
    ) -> (rooms: Vec<Rect>)
        requires
            old(self).wf(),
            old(self).player < old(self).next_id,
            old(self).next_id + MAX_TILES <= ID_LIMIT,
            cell_keys@.len() == MAP_WIDTH * MAP_HEIGHT,
        ensures
            final(self).wf(),
            final(self).player == old(self).player,
            final(self).log == old(self).log,
            final(self).run_state == old(self).run_state,
            final(self).map.depth == new_depth,
            start_for(new_depth, rooms@, final(self).player_pos),
            level_ready(final(self).map, final(self).player_pos),
            old(self).next_id <= final(self).next_id <= old(self).next_id + MAX_TILES,
            final(self).entities@.len() >= old(self).entities@.len(),
            forall|k: int|
                0 <= k < old(self).entities@.len() ==> #[trigger] final(self).entities@[k] == if old(self).entities@[k].id == old(self).player {
                    moved_to(old(self).entities@[k], final(self).player_pos)
                } else {
                    old(self).entities@[k]
                },
            fresh_spawns_from(*final(self), old(self).next_id, old(self).entities@.len() as int),
    {
        let r = build_level(rng, MAP_WIDTH, MAP_HEIGHT, new_depth, cell_keys);
        let BuildResult { map, start_x, start_y, rooms, spawn_plan } = r;
        self.map = map;
        self.spawn_from_plan(rng, &spawn_plan, new_depth);
        let ghost spawned = self.entities@;
        self.relocate_player(Position { x: start_x, y: start_y });
        proof {
            let n0 = old(self).entities@.len();
            assert forall|k: int| n0 <= k < self.entities@.len() implies #[trigger] self.entities@[k]
                == spawned[k] by {
                let m = k - n0;
                assert(spawned[n0 + m].id == old(self).next_id + m);
            }
            lemma_spawned_spots(
                self.map,
                self.player_pos,
                spawn_plan@,
                spawned,
                self.entities@,
                n0 as int,
                old(self).next_id,
                new_depth,
            );
        }
        rooms
    }

    /// Keeps the player and what it carries or wears, deletes everything else,
    /// builds the next level down and places the player at its start, healed
    /// to at least half its maximum health; hands back the rooms carved.
    #[verifier::rlimit(40)]
    pub fn goto_next_level(&mut self, rng: &mut RandomNumberGenerator, cell_keys: &Vec<i32>) -> (rooms: Vec<Rect>)
        requires
            old(self).wf(),
            old(self).next_id + MAX_TILES <= ID_LIMIT,
            old(self).map.depth < i32::MAX,
            old(self).player < old(self).next_id,
            cell_keys@.len() == MAP_WIDTH * MAP_HEIGHT,
        ensures
            descended(*old(self), *final(self)),
            final(self).run_state == old(self).run_state,
            start_for(final(self).map.depth, rooms@, final(self).player_pos),
    {
        let ghost es = self.entities@;
        let ghost player = self.player;
        self.retain_player_owned();
        let ghost kept = self.entities@;
        let depth = self.map.depth + 1;
        let rooms = self.generate_world_map(rng, depth, cell_keys);
        let ghost built = *self;
        self.log.push(LogEntry::Descended);
        self.heal_player_on_descent();
        proof {
            lemma_survivors(es, player, kept, built.entities@, self.entities@, old(self).next_id);
            assert forall|k: int| kept.len() <= k < self.entities@.len() implies #[trigger] self.entities@[k]
                == built.entities@[k] by {
                assert(fresh_spawn(built, old(self).next_id, built.entities@[k]));
            }
            assert forall|k: int|
                kept.len() <= k < self.entities@.len() implies fresh_spawn(
                *self,
                old(self).next_id,
                #[trigger] self.entities@[k],
            ) by {
                assert(fresh_spawn(built, old(self).next_id, built.entities@[k]));
            }
            assert forall|a: int, b: int|
                kept.len() <= a < b < self.entities@.len() implies (#[trigger] self.entities@[a]).position
                != (#[trigger] self.entities@[b]).position by {
                assert(self.entities@[a] == built.entities@[a]);
                assert(self.entities@[b] == built.entities@[b]);
            }
        }
        rooms
    }

    /// Deletes every entity, clears the log, and starts a new game at depth 1
    /// with a fresh player; ids keep counting, so no old id names a new
    /// entity. Hands back the rooms carved.
    pub fn game_over_cleanup(&mut self, rng: &mut RandomNumberGenerator, cell_keys: &Vec<i32>) -> (rooms: Vec<Rect>)
        requires
            old(self).wf(),
            old(self).next_id + MAX_TILES + 1 <= ID_LIMIT,
            cell_keys@.len() == MAP_WIDTH * MAP_HEIGHT,
        ensures
            reset_world(*old(self), *final(self)),
            final(self).run_state == old(self).run_state,
            start_for(1, rooms@, final(self).player_pos),
    {
        self.entities = Vec::new();
        self.log = Vec::new();
        self.log.push(LogEntry::Welcome);
        let player = self.spawn_player(0, 0);
        self.player = player;
        self.player_pos = Position { x: 0, y: 0 };
        self.generate_world_map(rng, 1, cell_keys)
    }

    /// A world at the main menu with a player on a depth-1 level, as at
    /// start-up.
    pub fn new(rng: &mut RandomNumberGenerator, cell_keys: &Vec<i32>) -> (w: EcsWorld)
        requires
            cell_keys@.len() == MAP_WIDTH * MAP_HEIGHT,
        ensures
            w.wf(),
            w.run_state == RunState::MainMenu(MainMenuSelection::NewGame),
            w.player < w.next_id,
            w.map.depth == 1,
            level_ready(w.map, w.player_pos),
    {
        let mut w = EcsWorld {
            entities: Vec::new(),
            next_id: 0,
            player: 0,
            player_pos: Position { x: 0, y: 0 },
            map: GridMap::new(MAP_WIDTH, MAP_HEIGHT, 0),
            log: Vec::new(),
            run_state: RunState::MainMenu(MainMenuSelection::NewGame),
        };
        let _ = w.game_over_cleanup(rng, cell_keys);
        w.log = Vec::new();
        w
    }
}

/// Which entities outlive a level change: those the player keeps, found by
/// id among the kept records and the fresh ones after them.
proof fn lemma_survivors(
    es: Seq<EntityRecord>,
    player: u64,
    kept: Seq<EntityRecord>,
    built: Seq<EntityRecord>,
    fin: Seq<EntityRecord>,
    next: u64,
)
    requires
        ids_unique(es),
        ids_below(es, next),
        kept == es.filter(|e: EntityRecord| retained(e, player)),
        built.len() >= kept.len(),
        fin.len() == built.len(),
        forall|k: int| 0 <= k < fin.len() ==> (#[trigger] fin[k]).id == built[k].id,
        forall|k: int| 0 <= k < kept.len() ==> (#[trigger] built[k]).id == kept[k].id,
        forall|k: int| kept.len() <= k < built.len() ==> next <= (#[trigger] built[k]).id,
    ensures
        forall|a: int|
            0 <= a < es.len() ==> (has_id(fin, (#[trigger] es[a]).id) <==> retained(es[a], player)),
        forall|k: int|
            0 <= k < fin.len() ==> {
                let e = #[trigger] fin[k];
                e.id >= next || exists|a: int|
                    0 <= a < es.len() && es[a].id == e.id && retained(es[a], player)
            },
{
    let pred = |e: EntityRecord| retained(e, player);
    assert forall|a: int| 0 <= a < es.len() implies (has_id(fin, (#[trigger] es[a]).id) <==> retained(
        es[a],
        player,
    )) by {
        if retained(es[a], player) {
            es.lemma_filter_contains(pred, a);
            let k = choose|k: int| 0 <= k < kept.len() && kept[k] == es[a];
            assert(fin[k].id == es[a].id);
        }
        if has_id(fin, es[a].id) {
            let k = choose|k: int| 0 <= k < fin.len() && (#[trigger] fin[k]).id == es[a].id;
            if k < kept.len() {
                es.lemma_filter_pred(pred, k);
                es.lemma_filter_contains_rev(pred, kept[k]);
                let b = choose|b: int| 0 <= b < es.len() && es[b] == kept[k];
                assert(es[b].id == es[a].id);
            } else {
                assert(built[k].id >= next);
            }
        }
    }
    assert forall|k: int| 0 <= k < fin.len() implies {
        let e = #[trigger] fin[k];
        e.id >= next || exists|a: int| 0 <= a < es.len() && es[a].id == e.id && retained(es[a], player)
    } by {
        if k < kept.len() {
            es.lemma_filter_pred(pred, k);
            es.lemma_filter_contains_rev(pred, kept[k]);
            let b = choose|b: int| 0 <= b < es.len() && es[b] == kept[k];
            assert(es[b].id == fin[k].id);
        }
    }
}

} // verus!
