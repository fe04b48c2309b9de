use bashing_bytes::common::apply_room_to_map;
use bashing_bytes::grid::{GridMap, Rect, TileKind};
use bashing_bytes::state::{Position, RunState};
use bashing_bytes::world::{make_spawned, EcsWorld, SpawnKind};
use rltk::RandomNumberGenerator;

/// A world whose only entity is the player, standing at (5, 5) in an open
/// room from (1, 1) to (10, 10).
fn small_world() -> EcsWorld {
    let mut rng = RandomNumberGenerator::seeded(1);
    let keys = vec![0; 64 * 64];
    let mut w = EcsWorld::new(&mut rng, &keys);
    let player = w.player;
    w.entities.retain(|e| e.id == player);
    let mut map = GridMap::new(64, 64, 1);
    apply_room_to_map(&mut map, &Rect::new(0, 0, 11, 11));
    w.map = map;
    w.player_pos = Position { x: 5, y: 5 };
    w.entities[0].position = Some(w.player_pos);
    w.map_indexing();
    w
}

#[test]
fn moving_onto_floor_moves_the_player() {
    let mut w = small_world();
    assert_eq!(w.try_move_player(1, 0), RunState::PlayerTurn);
    assert_eq!(w.player_pos, Position { x: 6, y: 5 });
    assert_eq!(w.entities[0].position, Some(Position { x: 6, y: 5 }));
    assert!(w.entities[0].viewshed.unwrap().dirty);
}

#[test]
fn moving_into_a_wall_does_nothing() {
    let mut w = small_world();
    w.player_pos = Position { x: 1, y: 1 };
    w.entities[0].position = Some(w.player_pos);
    let before = w.entities.clone();
    assert_eq!(w.try_move_player(-1, 0), RunState::AwaitingInput);
    assert_eq!(w.player_pos, Position { x: 1, y: 1 });
    assert_eq!(w.entities, before);
}

#[test]
fn moving_off_the_map_does_nothing() {
    let mut w = small_world();
    w.player_pos = Position { x: 0, y: 0 };
    assert_eq!(w.try_move_player(-1, -1), RunState::AwaitingInput);
}

#[test]
fn moving_into_a_monster_attacks_it() {
    let mut w = small_world();
    let orc = make_spawned(w.next_id, SpawnKind::Orc, Position { x: 5, y: 6 });
    w.entities.push(orc);
    w.next_id += 1;
    w.map_indexing();
    assert_eq!(w.try_move_player(0, 1), RunState::PlayerTurn);
    assert_eq!(w.player_pos, Position { x: 5, y: 5 });
    assert_eq!(w.entities[0].wants_to_melee, Some(orc.id));
}

#[test]
fn picking_up_needs_an_item_underfoot() {
    let mut w = small_world();
    assert_eq!(w.try_pickup(), RunState::AwaitingInput);
    let potion = make_spawned(w.next_id, SpawnKind::HealthPotion, Position { x: 5, y: 5 });
    w.entities.push(potion);
    w.next_id += 1;
    assert_eq!(w.try_pickup(), RunState::PlayerTurn);
    assert_eq!(w.entities[0].wants_to_pickup, Some(potion.id));
}

#[test]
fn descending_needs_the_stairs() {
    let mut w = small_world();
    assert_eq!(w.try_descend(), RunState::AwaitingInput);
    let idx = w.map.xy_idx(5, 5);
    w.map.tiles[idx] = TileKind::DownStairs;
    assert_eq!(w.try_descend(), RunState::NextLevel);
}

#[test]
fn attacking_picks_the_first_living_foe_on_the_tile() {
    let mut w = small_world();
    let mut dead = make_spawned(w.next_id, SpawnKind::Goblin, Position { x: 6, y: 5 });
    dead.stats = Some(bashing_bytes::world::CombatStats { max_hp: 8, hp: 0, defense: 1, power: 3 });
    w.entities.push(dead);
    w.next_id += 1;
    let first = make_spawned(w.next_id, SpawnKind::Orc, Position { x: 6, y: 5 });
    w.entities.push(first);
    w.next_id += 1;
    let second = make_spawned(w.next_id, SpawnKind::Goblin, Position { x: 6, y: 5 });
    w.entities.push(second);
    w.next_id += 1;
    w.map_indexing();
    assert_eq!(w.try_move_player(1, 0), RunState::PlayerTurn);
    assert_eq!(w.entities[0].wants_to_melee, Some(first.id));
    assert_eq!(w.player_pos, Position { x: 5, y: 5 });
}
