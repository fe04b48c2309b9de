use bashing_bytes::builder::build_rooms_and_corridors;
use bashing_bytes::grid::TileKind;
use bashing_bytes::save_load::{load_game, save_game, SaveData};
use bashing_bytes::state::{
    step, Action, Event, GameOverResult, ItemMenuResult, MainMenuResult, MainMenuSelection,
    Position, RunState, TargetResult,
};
use bashing_bytes::world::{
    blank, make_spawned, pick_spawn, spawn_weight_of, total_weight_of, CombatStats, EcsWorld,
    EntityRecord, LogEntry, SpawnKind, UseIntent, PLAYER_HP,
};
use rltk::RandomNumberGenerator;

fn keys() -> Vec<i32> {
    (0..64 * 64).map(|i| (i / 512) as i32).collect()
}

fn world(seed: u64) -> (EcsWorld, RandomNumberGenerator) {
    let mut rng = RandomNumberGenerator::seeded(seed);
    let w = EcsWorld::new(&mut rng, &keys());
    (w, rng)
}

fn player_index(w: &EcsWorld) -> usize {
    w.entities.iter().position(|e| e.id == w.player).unwrap()
}

fn add(w: &mut EcsWorld, mut e: EntityRecord) -> u64 {
    let id = w.next_id;
    e.id = id;
    w.entities.push(e);
    w.next_id += 1;
    id
}

fn item_in_bag(owner: u64) -> EntityRecord {
    let mut e = blank(0);
    e.item = true;
    e.in_backpack = Some(owner);
    e
}

#[test]
fn new_game_starts_at_first_room_centre() {
    let (mut w, mut rng) = world(42);
    assert_eq!(w.run_state, RunState::MainMenu(MainMenuSelection::NewGame));
    let mut twin = rng.clone();
    let out = w.tick(
        &mut rng,
        Event::MainMenu(MainMenuResult::Selection(MainMenuSelection::NewGame)),
        &keys(),
    );
    assert_eq!(out, Action::Nothing);
    assert_eq!(w.run_state, RunState::PreRun);
    let expected = build_rooms_and_corridors(&mut twin, 64, 64, 1);
    assert_eq!((w.player_pos.x, w.player_pos.y), expected.rooms[0].center());
    assert_eq!(w.map.depth, 1);
    assert_eq!(w.log, vec![LogEntry::Welcome]);
    let p = w.entities[player_index(&w)];
    let s = p.stats.unwrap();
    assert_eq!(s.hp, s.max_hp);
    assert_eq!(s.hp, PLAYER_HP);
    assert_eq!(p.position, Some(w.player_pos));
    w.tick(&mut rng, Event::Idle, &keys());
    assert_eq!(w.run_state, RunState::AwaitingInput);
}

#[test]
fn level_advance_keeps_exactly_the_player_and_its_items() {
    let (mut w, mut rng) = world(7);
    let player = w.player;
    let monster = add(&mut w, make_spawned(0, SpawnKind::Orc, Position { x: 1, y: 1 }));
    let mut owned = Vec::new();
    for _ in 0..3 {
        owned.push(add(&mut w, item_in_bag(player)));
    }
    let mut worn = item_in_bag(player);
    worn.in_backpack = None;
    worn.equipped = Some(player);
    owned.push(add(&mut w, worn));
    for _ in 0..5 {
        add(&mut w, item_in_bag(monster));
    }
    let before = w.next_id;
    let unrelated = w.entities.len() - 1 - owned.len();
    assert!(unrelated >= 6);
    w.run_state = RunState::NextLevel;
    w.tick(&mut rng, Event::Idle, &keys());
    assert_eq!(w.run_state, RunState::PreRun);
    assert_eq!(w.map.depth, 2);
    let survivors: Vec<u64> = w.entities.iter().map(|e| e.id).filter(|id| *id < before).collect();
    assert_eq!(survivors.len(), 1 + owned.len());
    assert!(survivors.contains(&player));
    for id in &owned {
        assert!(survivors.contains(id));
    }
    assert_eq!(w.log.last(), Some(&LogEntry::Descended));
    let p = w.entities[player_index(&w)];
    assert_eq!(p.position, Some(w.player_pos));
    assert!(p.viewshed.unwrap().dirty);
}

#[test]
fn level_advance_heals_to_half_but_never_lowers() {
    let (mut w, mut rng) = world(8);
    let k = player_index(&w);
    w.entities[k].stats = Some(CombatStats { max_hp: 30, hp: 4, defense: 2, power: 5 });
    w.goto_next_level(&mut rng, &keys());
    let k = player_index(&w);
    assert_eq!(w.entities[k].stats.unwrap().hp, 15);
    w.entities[k].stats = Some(CombatStats { max_hp: 30, hp: 22, defense: 2, power: 5 });
    w.goto_next_level(&mut rng, &keys());
    let k = player_index(&w);
    assert_eq!(w.entities[k].stats.unwrap().hp, 22);
    assert_eq!(w.map.depth, 3);
    w.entities[k].stats = Some(CombatStats { max_hp: -2, hp: -5, defense: 2, power: 5 });
    w.goto_next_level(&mut rng, &keys());
    let k = player_index(&w);
    assert_eq!(w.entities[k].stats.unwrap().hp, -1);
    w.entities[k].stats = Some(CombatStats { max_hp: -3, hp: -5, defense: 2, power: 5 });
    w.goto_next_level(&mut rng, &keys());
    let k = player_index(&w);
    assert_eq!(w.entities[k].stats.unwrap().hp, -1);
}

#[test]
fn save_then_load_restores_the_world() {
    let (mut w, mut rng) = world(5);
    w.goto_next_level(&mut rng, &keys());
    w.goto_next_level(&mut rng, &keys());
    assert_eq!(w.map.depth, 3);
    let k = player_index(&w);
    w.entities[k].stats = Some(CombatStats { max_hp: 30, hp: 17, defense: 2, power: 5 });
    let potion = add(&mut w, make_spawned(0, SpawnKind::HealthPotion, Position { x: 0, y: 0 }));
    let j = w.entities.iter().position(|e| e.id == potion).unwrap();
    w.entities[j].position = None;
    w.entities[j].in_backpack = Some(w.player);
    w.run_state = RunState::SaveGame;
    let out = w.tick(&mut rng, Event::Idle, &keys());
    assert_eq!(out, Action::Save);
    assert_eq!(w.run_state, RunState::MainMenu(MainMenuSelection::LoadGame));
    let saved = save_game(&w);

    let (mut fresh, _) = world(99);
    assert!(load_game(&mut fresh, saved));
    assert_eq!(fresh.run_state, RunState::AwaitingInput);
    assert_eq!(fresh.entities, w.entities);
    assert_eq!(fresh.player, w.player);
    assert_eq!(fresh.player_pos, w.player_pos);
    assert_eq!(fresh.next_id, w.next_id);
    assert_eq!(fresh.map.depth, 3);
    assert_eq!(fresh.map.tiles, w.map.tiles);
    assert_eq!(fresh.map.status, w.map.status);
    assert!(fresh.map.tile_content.iter().all(|c| c.is_empty()));
    let p = fresh.entities[player_index(&fresh)];
    assert_eq!(p.stats.unwrap().hp, 17);
    let item = fresh.entities.iter().find(|e| e.id == potion).unwrap();
    assert_eq!(item.in_backpack, Some(fresh.player));
}

#[test]
fn load_rejects_a_broken_save() {
    let (mut w, _) = world(6);
    let before = w.entities.clone();
    let bad = SaveData {
        entities: Vec::new(),
        next_id: 0,
        width: 64,
        height: 64,
        depth: 1,
        tiles: vec![TileKind::Floor; 64 * 64],
        status: vec![0; 64 * 64],
    };
    assert!(!load_game(&mut w, bad));
    assert_eq!(w.run_state, RunState::MainMenu(MainMenuSelection::LoadGame));
    assert_eq!(w.entities, before);
    let short = SaveData {
        entities: before.clone(),
        next_id: w.next_id,
        width: 64,
        height: 64,
        depth: 1,
        tiles: vec![TileKind::Floor; 10],
        status: vec![0; 10],
    };
    assert!(!load_game(&mut w, short));
    let mut twice = save_game(&w);
    let mut extra = twice.entities[0];
    extra.id = twice.next_id;
    extra.player = true;
    extra.position = Some(Position { x: 1, y: 1 });
    twice.entities.push(extra);
    twice.next_id += 1;
    let pos = w.player_pos;
    assert!(!load_game(&mut w, twice));
    assert_eq!(w.entities, before);
    assert_eq!(w.player_pos, pos);
}

#[test]
fn reset_places_the_player_at_the_first_room_centre() {
    let (mut w, mut rng) = world(31);
    let rooms = w.game_over_cleanup(&mut rng, &keys());
    assert!(!rooms.is_empty());
    assert_eq!((w.player_pos.x, w.player_pos.y), rooms[0].center());
    let rooms = w.goto_next_level(&mut rng, &keys());
    assert!(rooms.is_empty());
    let start = w.map.xy_idx(w.player_pos.x, w.player_pos.y);
    assert_eq!(w.map.tiles[start], TileKind::Floor);
    let spawned: Vec<_> = w.entities.iter().filter(|e| e.id != w.player && e.in_backpack.is_none() && e.equipped.is_none()).collect();
    for e in &spawned {
        let p = e.position.unwrap();
        assert_ne!(p, w.player_pos);
        assert_eq!(w.map.tiles[w.map.xy_idx(p.x, p.y)], TileKind::Floor);
    }
}

#[test]
fn lethal_melee_removes_the_monster_from_world_and_index() {
    let (mut w, mut rng) = world(3);
    let player = w.player;
    w.entities.retain(|e| e.id == player);
    let pos = w.player_pos;
    let mut goblin = make_spawned(0, SpawnKind::Goblin, Position { x: pos.x + 1, y: pos.y });
    goblin.stats = Some(CombatStats { max_hp: 8, hp: 3, defense: 1, power: 3 });
    let gid = add(&mut w, goblin);
    let k = player_index(&w);
    w.entities[k].wants_to_melee = Some(gid);
    w.run_state = RunState::PlayerTurn;
    w.tick(&mut rng, Event::Idle, &keys());
    assert_eq!(w.run_state, RunState::MonsterTurn);
    assert!(w.entities.iter().all(|e| e.id != gid));
    w.tick(&mut rng, Event::Idle, &keys());
    assert_eq!(w.run_state, RunState::AwaitingInput);
    assert!(w.entities.iter().all(|e| e.id != gid));
    assert!(w.map.tile_content.iter().all(|c| !c.contains(&gid)));
    let idx = w.map.xy_idx(pos.x, pos.y);
    assert_eq!(w.map.tile_content[idx], vec![player]);
    let p = w.entities[player_index(&w)];
    assert_eq!(p.stats.unwrap().hp, PLAYER_HP - 1);
}

#[test]
fn dead_player_ends_the_game() {
    let (mut w, mut rng) = world(4);
    let k = player_index(&w);
    w.entities[k].suffer_damage = 100;
    w.run_state = RunState::MonsterTurn;
    w.tick(&mut rng, Event::Idle, &keys());
    assert_eq!(w.run_state, RunState::GameOver);
    assert!(w.entities.iter().any(|e| e.id == w.player));
    w.tick(&mut rng, Event::GameOver(GameOverResult::NoSelection), &keys());
    assert_eq!(w.run_state, RunState::GameOver);
    let first_fresh = w.next_id;
    w.tick(&mut rng, Event::GameOver(GameOverResult::QuitToMenu), &keys());
    assert_eq!(w.run_state, RunState::MainMenu(MainMenuSelection::NewGame));
    assert_eq!(w.player, first_fresh);
    assert!(w.entities.iter().all(|e| e.id >= first_fresh));
    assert_eq!(w.entities.iter().filter(|e| e.player).count(), 1);
    assert_eq!(w.log, vec![LogEntry::Welcome]);
    assert_eq!(w.map.depth, 1);
    let p = w.entities[player_index(&w)];
    assert_eq!(p.stats.unwrap().hp, PLAYER_HP);
}

#[test]
fn indexing_blocks_walls_and_blocking_entities() {
    let (mut w, _) = world(12);
    let player = w.player;
    w.entities.retain(|e| e.id == player);
    let pos = w.player_pos;
    let gid = add(&mut w, make_spawned(0, SpawnKind::Goblin, Position { x: pos.x, y: pos.y }));
    w.map_indexing();
    let idx = w.map.xy_idx(pos.x, pos.y);
    assert_eq!(w.map.tile_content[idx], vec![player, gid]);
    assert!(!w.map.is_walkable(idx));
    let wall = w.map.tiles.iter().position(|t| *t == TileKind::Wall).unwrap();
    assert!(!w.map.is_walkable(wall));
}

#[test]
fn picking_up_and_drinking_a_potion() {
    let (mut w, mut rng) = world(21);
    let pos = w.player_pos;
    let potion = add(&mut w, make_spawned(0, SpawnKind::HealthPotion, pos));
    let k = player_index(&w);
    w.entities[k].wants_to_pickup = Some(potion);
    w.entities[k].stats = Some(CombatStats { max_hp: 30, hp: 10, defense: 2, power: 5 });
    w.resolve_item_intents();
    let it = w.entities.iter().find(|e| e.id == potion).unwrap();
    assert_eq!(it.position, None);
    assert_eq!(it.in_backpack, Some(w.player));
    w.run_state = RunState::ShowInventory;
    w.tick(&mut rng, Event::ItemMenu(ItemMenuResult::Selected(potion)), &keys());
    assert_eq!(w.run_state, RunState::PlayerTurn);
    let k = player_index(&w);
    assert_eq!(w.entities[k].wants_to_use, Some(UseIntent { item: potion, target: None }));
    w.resolve_item_intents();
    let k = player_index(&w);
    assert_eq!(w.entities[k].stats.unwrap().hp, 18);
    assert_eq!(w.entities[k].wants_to_use, None);
    assert!(w.entities.iter().all(|e| e.id != potion));
}

#[test]
fn ranged_item_asks_for_a_target_then_hurts_there() {
    let (mut w, mut rng) = world(22);
    let player = w.player;
    w.entities.retain(|e| e.id == player);
    let scroll = add(&mut w, make_spawned(0, SpawnKind::FireballScroll, Position { x: 0, y: 0 }));
    let j = w.entities.iter().position(|e| e.id == scroll).unwrap();
    w.entities[j].position = None;
    w.entities[j].in_backpack = Some(player);
    let near = add(&mut w, make_spawned(0, SpawnKind::Orc, Position { x: 10, y: 12 }));
    let far = add(&mut w, make_spawned(0, SpawnKind::Orc, Position { x: 20, y: 20 }));
    w.run_state = RunState::ShowInventory;
    w.tick(&mut rng, Event::ItemMenu(ItemMenuResult::Selected(scroll)), &keys());
    assert_eq!(w.run_state, RunState::ShowTargeting(6, scroll));
    let target = Position { x: 10, y: 10 };
    w.tick(&mut rng, Event::Target(TargetResult::Selected(target)), &keys());
    assert_eq!(w.run_state, RunState::PlayerTurn);
    w.resolve_item_intents();
    let n = w.entities.iter().find(|e| e.id == near).unwrap();
    assert_eq!(n.suffer_damage, 20);
    let f = w.entities.iter().find(|e| e.id == far).unwrap();
    assert_eq!(f.suffer_damage, 0);
    assert!(w.entities.iter().all(|e| e.id != scroll));
}

#[test]
fn equipping_swaps_out_the_old_item_and_removing_bags_it() {
    let (mut w, _) = world(23);
    let player = w.player;
    let mut dagger = make_spawned(0, SpawnKind::Dagger, Position { x: 0, y: 0 });
    dagger.position = None;
    dagger.equipped = Some(player);
    let dagger = add(&mut w, dagger);
    let mut sword = make_spawned(0, SpawnKind::Longsword, Position { x: 0, y: 0 });
    sword.position = None;
    sword.in_backpack = Some(player);
    let sword = add(&mut w, sword);
    w.use_item(sword, None);
    let d = w.entities.iter().find(|e| e.id == dagger).unwrap();
    assert_eq!((d.equipped, d.in_backpack), (None, Some(player)));
    let s = w.entities.iter().find(|e| e.id == sword).unwrap();
    assert_eq!((s.equipped, s.in_backpack), (Some(player), None));
    let k = player_index(&w);
    w.entities[k].wants_to_remove = Some(sword);
    w.resolve_item_intents();
    let s = w.entities.iter().find(|e| e.id == sword).unwrap();
    assert_eq!((s.equipped, s.in_backpack), (None, Some(player)));
    let k = player_index(&w);
    w.entities[k].wants_to_drop = Some(sword);
    w.resolve_item_intents();
    let s = w.entities.iter().find(|e| e.id == sword).unwrap();
    assert_eq!((s.in_backpack, s.position), (None, Some(w.player_pos)));
}

#[test]
fn transition_table() {
    assert_eq!(step(RunState::PreRun, Event::Idle, None), (RunState::AwaitingInput, Action::RunSystems));
    assert_eq!(step(RunState::PlayerTurn, Event::Idle, None), (RunState::MonsterTurn, Action::RunSystems));
    assert_eq!(step(RunState::MonsterTurn, Event::Idle, None), (RunState::AwaitingInput, Action::RunSystems));
    assert_eq!(step(RunState::NextLevel, Event::Idle, None), (RunState::PreRun, Action::AdvanceLevel));
    assert_eq!(step(RunState::SaveGame, Event::Idle, None), (RunState::MainMenu(MainMenuSelection::LoadGame), Action::Save));
    assert_eq!(step(RunState::AwaitingInput, Event::Input(RunState::ShowInventory), None), (RunState::ShowInventory, Action::Nothing));
    assert_eq!(step(RunState::AwaitingInput, Event::Input(RunState::MonsterTurn), None), (RunState::AwaitingInput, Action::Nothing));
    assert_eq!(step(RunState::AwaitingInput, Event::Idle, None), (RunState::AwaitingInput, Action::Nothing));
    assert_eq!(
        step(RunState::ShowInventory, Event::ItemMenu(ItemMenuResult::Selected(9)), Some(4)),
        (RunState::ShowTargeting(4, 9), Action::Nothing)
    );
    assert_eq!(
        step(RunState::ShowInventory, Event::ItemMenu(ItemMenuResult::Selected(9)), None),
        (RunState::PlayerTurn, Action::UseItem(9, None))
    );
    assert_eq!(step(RunState::ShowInventory, Event::ItemMenu(ItemMenuResult::Cancel), None), (RunState::AwaitingInput, Action::Nothing));
    assert_eq!(step(RunState::ShowInventory, Event::ItemMenu(ItemMenuResult::NoResponse), None), (RunState::ShowInventory, Action::Nothing));
    assert_eq!(step(RunState::ShowDropItem, Event::ItemMenu(ItemMenuResult::Selected(3)), None), (RunState::PlayerTurn, Action::DropItem(3)));
    assert_eq!(step(RunState::ShowRemoveItem, Event::ItemMenu(ItemMenuResult::Selected(3)), None), (RunState::PlayerTurn, Action::RemoveItem(3)));
    let p = Position { x: 1, y: 2 };
    assert_eq!(
        step(RunState::ShowTargeting(6, 3), Event::Target(TargetResult::Selected(p)), None),
        (RunState::PlayerTurn, Action::UseItem(3, Some(p)))
    );
    assert_eq!(step(RunState::ShowTargeting(6, 3), Event::Target(TargetResult::Cancel), None), (RunState::AwaitingInput, Action::Nothing));
    let menu = RunState::MainMenu(MainMenuSelection::NewGame);
    assert_eq!(
        step(menu, Event::MainMenu(MainMenuResult::NoSelection(MainMenuSelection::Quit)), None),
        (RunState::MainMenu(MainMenuSelection::Quit), Action::Nothing)
    );
    assert_eq!(
        step(menu, Event::MainMenu(MainMenuResult::Selection(MainMenuSelection::LoadGame)), None),
        (RunState::MainMenu(MainMenuSelection::LoadGame), Action::Load)
    );
    assert_eq!(
        step(menu, Event::MainMenu(MainMenuResult::Selection(MainMenuSelection::Quit)), None),
        (menu, Action::Quit)
    );
    assert_eq!(step(RunState::GameOver, Event::GameOver(GameOverResult::QuitToMenu), None), (RunState::MainMenu(MainMenuSelection::NewGame), Action::ResetWorld));
}

#[test]
fn spawn_table_weights_and_picks() {
    assert_eq!(spawn_weight_of(SpawnKind::Longsword, 5), 0);
    assert_eq!(spawn_weight_of(SpawnKind::Longsword, 8), 3);
    assert_eq!(spawn_weight_of(SpawnKind::Orc, 4), 5);
    assert_eq!(spawn_weight_of(SpawnKind::Orc, 1000), 101);
    assert_eq!(total_weight_of(1), 32);
    assert_eq!(pick_spawn(0, 1), SpawnKind::Goblin);
    assert_eq!(pick_spawn(9, 1), SpawnKind::Goblin);
    assert_eq!(pick_spawn(10, 1), SpawnKind::Orc);
    assert_eq!(pick_spawn(12, 1), SpawnKind::HealthPotion);
    assert_eq!(pick_spawn(19, 1), SpawnKind::MagicMissileScroll);
    assert_eq!(pick_spawn(23, 1), SpawnKind::FireballScroll);
    assert_eq!(pick_spawn(26, 1), SpawnKind::Dagger);
    assert_eq!(pick_spawn(31, 1), SpawnKind::Shield);
    assert_eq!(pick_spawn(total_weight_of(9) - 1, 9), SpawnKind::Longsword);
}

#[test]
fn random_draws_vary_room_sizes_and_spawns() {
    let mut widths = std::collections::HashSet::new();
    let mut plans = std::collections::HashSet::new();
    for seed in 0..10u64 {
        let mut rng = RandomNumberGenerator::seeded(seed);
        let r = build_rooms_and_corridors(&mut rng, 64, 64, 1);
        for room in &r.rooms {
            let w = room.x2 - room.x1;
            assert!((6..10).contains(&w));
            widths.insert(w);
        }
        plans.insert(r.spawn_plan.len());
    }
    assert!(widths.len() > 1);
    assert!(plans.len() > 1);
}
