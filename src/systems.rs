//! The systems of one turn, in pipeline order: visibility, monster AI,
//! indexing, melee, damage, items, culling.

use crate::grid::{idx_of, TileKind, BLOCKED, REVEALED, VISIBLE};
use crate::state::{Position, RunState};
use crate::world::{CombatStats, EcsWorld, EntityRecord, EquipSlot, Viewshed};
use vstd::prelude::*;

verus! {

pub open spec fn alive(e: EntityRecord) -> bool {
    e.stats is Some && e.stats->0.hp > 0
}

pub open spec fn abs(v: int) -> int {
    if v < 0 {
        -v
    } else {
        v
    }
}

/// Kings-move distance between two positions.
pub open spec fn chebyshev(a: Position, b: Position) -> int {
    let dx = abs(a.x - b.x);
    let dy = abs(a.y - b.y);
    if dx >= dy {
        dx
    } else {
        dy
    }
}

fn chebyshev_of(a: Position, b: Position) -> (r: i64)
    ensures
        r == chebyshev(a, b),
{
    let dx = a.x as i64 - b.x as i64;
    let dy = a.y as i64 - b.y as i64;
    let dx = if dx < 0 {
        -dx
    } else {
        dx
    };
    let dy = if dy < 0 {
        -dy
    } else {
        dy
    };
    if dx >= dy {
        dx
    } else {
        dy
    }
}

/// A living monster next to the player decides to attack it.
pub open spec fn ai_step(e: EntityRecord, player: u64, player_pos: Position) -> EntityRecord {
    if e.monster && alive(e) && e.id != player && e.position is Some && chebyshev(
        e.position->0,
        player_pos,
    ) == 1 {
        EntityRecord { wants_to_melee: Some(player), ..e }
    } else {
        e
    }
}

/// `x + d`, held inside the range of `i32`.
pub open spec fn sat_add(x: i32, d: int) -> i32 {
    if x + d > i32::MAX {
        i32::MAX
    } else if x + d < i32::MIN {
        i32::MIN
    } else {
        (x + d) as i32
    }
}

fn sat_add_of(x: i32, d: i64) -> (r: i32)
    requires
        -0x1_0000_0000 <= d <= 0x1_0000_0000,
    ensures
        r == sat_add(x, d as int),
{
    let s = x as i64 + d;
    if s > i32::MAX as i64 {
        i32::MAX
    } else if s < i32::MIN as i64 {
        i32::MIN
    } else {
        s as i32
    }
}

/// `a` strikes `t` this turn: both alive, `a` aiming at `t`.
pub open spec fn hits(a: EntityRecord, t: EntityRecord) -> bool {
    alive(a) && a.wants_to_melee == Some(t.id) && alive(t)
}

/// Attack power beyond the target's defense, never below zero.
pub open spec fn melee_damage(a: EntityRecord, t: EntityRecord) -> int {
    let d = a.stats->0.power - t.stats->0.defense;
    if d > 0 {
        d
    } else {
        0
    }
}

/// Damage pending on `es[k]` after the first `n` entities have struck.
pub open spec fn suffer_after(es: Seq<EntityRecord>, k: int, n: nat) -> i32
    decreases n,
{
    if n == 0 {
        es[k].suffer_damage
    } else {
        let prev = suffer_after(es, k, (n - 1) as nat);
        if hits(es[n - 1], es[k]) {
            sat_add(prev, melee_damage(es[n - 1], es[k]))
        } else {
            prev
        }
    }
}

/// Health after taking the pending damage.
pub open spec fn damaged(e: EntityRecord) -> EntityRecord {
    match e.stats {
        Some(s) => EntityRecord {
            stats: Some(CombatStats { hp: sat_add(s.hp, -(e.suffer_damage as int)), ..s }),
            suffer_damage: 0,
            ..e
        },
        None => EntityRecord { suffer_damage: 0, ..e },
    }
}


/// What the culling step keeps: everything but dead entities other than the
/// player.
pub open spec fn survives_cull(e: EntityRecord, player: u64) -> bool {
    !(e.stats is Some && e.stats->0.hp <= 0 && e.id != player)
}

/// The player's record is dead.
pub open spec fn player_dead(es: Seq<EntityRecord>, player: u64) -> bool {
    exists|k: int|
        0 <= k < es.len() && (#[trigger] es[k]).id == player && es[k].stats is Some
            && es[k].stats->0.hp <= 0
}

/// Ids of the entities standing on tile `i`, in entity order.
pub open spec fn occupants(es: Seq<EntityRecord>, w: int, h: int, i: int) -> Seq<u64> {
    es.filter(|e: EntityRecord| stands_on(e, w, h, i)).map_values(|e: EntityRecord| e.id)
}

pub open spec fn stands_on(e: EntityRecord, w: int, h: int, i: int) -> bool {
    &&& e.position is Some
    &&& 0 <= e.position->0.x < w
    &&& 0 <= e.position->0.y < h
    &&& idx_of(w, e.position->0.x as int, e.position->0.y as int) == i
}

/// Whether something keeps others off tile `i`.
pub open spec fn blocked_at(
    tiles: Seq<TileKind>,
    es: Seq<EntityRecord>,
    w: int,
    h: int,
    i: int,
) -> bool {
    tiles[i] == TileKind::Wall || exists|k: int|
        0 <= k < es.len() && (#[trigger] es[k]).blocks_tile && stands_on(es[k], w, h, i)
}

/// Tile `i` lies within `range` kings-moves of `pos`.
pub open spec fn in_view(pos: Position, range: int, w: int, i: int) -> bool {
    chebyshev(Position { x: (i % w) as i32, y: (i / w) as i32 }, pos) <= range
}

/// The status after a visibility pass: seen now and ever if in view, not
/// seen now otherwise.
pub open spec fn viewed_status(s: u8, seen: bool) -> u8 {
    if seen {
        s | VISIBLE | REVEALED
    } else {
        s & !VISIBLE
    }
}

/// The status with its blocked bit set as `blocked` says.
pub open spec fn with_blocked(s: u8, blocked: bool) -> u8 {
    if blocked {
        s | BLOCKED
    } else {
        s & !BLOCKED
    }
}

proof fn lemma_blocked_bits(s: u8)
    ensures
        (s | BLOCKED) & BLOCKED != 0,
        (s & !BLOCKED) & BLOCKED == 0,
        (s | BLOCKED) | BLOCKED == s | BLOCKED,
        (s & !BLOCKED) | BLOCKED == s | BLOCKED,
{
    assert((s | 4u8) & 4u8 != 0) by (bit_vector);
    assert((s & !4u8) & 4u8 == 0) by (bit_vector);
    assert((s | 4u8) | 4u8 == s | 4u8) by (bit_vector);
    assert((s & !4u8) | 4u8 == s | 4u8) by (bit_vector);
}

impl EcsWorld {
    fn map_entities_ai(&mut self)
        requires
            old(self).wf(),
        ensures
            final(self).wf(),
            final(self).same_context(old(self)),
            final(self).next_id == old(self).next_id,
            final(self).entities@.len() == old(self).entities@.len(),
            forall|k: int|
                0 <= k < old(self).entities@.len() ==> #[trigger] final(self).entities@[k] == ai_step(
                    old(self).entities@[k],
                    old(self).player,
                    old(self).player_pos,
                ),
    {
        let mut i: usize = 0;
        while i < self.entities.len()
            invariant
                self.wf(),
                self.same_context(old(self)),
                self.next_id == old(self).next_id,
                i <= self.entities@.len(),
                self.entities@.len() == old(self).entities@.len(),
                forall|k: int|
                    0 <= k < self.entities@.len() ==> #[trigger] self.entities@[k] == if k < i {
                        ai_step(old(self).entities@[k], old(self).player, old(self).player_pos)
                    } else {
                        old(self).entities@[k]
                    },
            decreases self.entities@.len() - i,
        {
            let e = self.entities[i];
            let living = match e.stats {
                Some(s) => s.hp > 0,
                None => false,
            };
            if e.monster && living && e.id != self.player {
                match e.position {
                    Some(p) => {
                        if chebyshev_of(p, self.player_pos) == 1 {
                            self.entities.set(
                                i,
                                EntityRecord { wants_to_melee: Some(self.player), ..e },
                            );
                        }
                    },
                    None => {},
                }
            }
            i = i + 1;
        }
    }

    /// Monster AI: each living monster next to the player decides to attack.
    pub fn monster_ai(&mut self)
        requires
            old(self).wf(),
        ensures
            final(self).wf(),
            final(self).same_context(old(self)),
            final(self).next_id == old(self).next_id,
            final(self).entities@.len() == old(self).entities@.len(),
            forall|k: int|
                0 <= k < old(self).entities@.len() ==> #[trigger] final(self).entities@[k] == ai_step(
                    old(self).entities@[k],
                    old(self).player,
                    old(self).player_pos,
                ),
            final(self).entities@ == old(self).entities@.map_values(
                |e: EntityRecord| ai_step(e, old(self).player, old(self).player_pos),
            ),
    {
        self.map_entities_ai();
        proof {
            assert(self.entities@ =~= old(self).entities@.map_values(
                |e: EntityRecord| ai_step(e, old(self).player, old(self).player_pos),
            ));
        }
    }

    /// Melee: every living attacker adds its damage to its living target's
    /// pending damage; all melee intents are consumed.
    pub fn melee_combat(&mut self)
        requires
            old(self).wf(),
        ensures
            final(self).wf(),
            final(self).same_context(old(self)),
            final(self).next_id == old(self).next_id,
            final(self).entities@.len() == old(self).entities@.len(),
            forall|k: int|
                0 <= k < old(self).entities@.len() ==> #[trigger] final(self).entities@[k]
                    == (EntityRecord {
                    suffer_damage: suffer_after(
                        old(self).entities@,
                        k,
                        old(self).entities@.len() as nat,
                    ),
                    wants_to_melee: None,
                    ..old(self).entities@[k]
                }),
            final(self).entities@ == melee_result(old(self).entities@),
    {
        let ghost es = self.entities@;
        let n = self.entities.len();
        let mut a: usize = 0;
        while a < n
            invariant
                self.wf(),
                self.same_context(old(self)),
                self.next_id == old(self).next_id,
                es == old(self).entities@,
                a <= n,
                n == es.len(),
                self.entities@.len() == n,
                forall|k: int|
                    0 <= k < n ==> #[trigger] self.entities@[k] == (EntityRecord {
                        suffer_damage: suffer_after(es, k, a as nat),
                        ..es[k]
                    }),
            decreases n - a,
        {
            let att = self.entities[a];
            let living = match att.stats {
                Some(s) => s.hp > 0,
                None => false,
            };
            if living {
                match att.wants_to_melee {
                    Some(t) => {
                        match self.find(t) {
                            Some(j) => {
                                let tgt = self.entities[j];
                                match tgt.stats {
                                    Some(ts) => {
                                        if ts.hp > 0 {
                                            let power = att.stats.unwrap().power;
                                            let d = power as i64 - ts.defense as i64;
                                            let d = if d > 0 {
                                                d
                                            } else {
                                                0
                                            };
                                            let sd = sat_add_of(tgt.suffer_damage, d);
                                            self.entities.set(
                                                j,
                                                EntityRecord { suffer_damage: sd, ..tgt },
                                            );
                                        }
                                    },
                                    None => {},
                                }
                            },
                            None => {},
                        }
                    },
                    None => {},
                }
            }
            proof {
                assert forall|k: int| 0 <= k < n implies #[trigger] self.entities@[k]
                    == EntityRecord { suffer_damage: suffer_after(es, k, (a + 1) as nat), ..es[k] } by {
                    assert(self.entities@[k].id == es[k].id);
                }
            }
            a = a + 1;
        }
        let mut i: usize = 0;
        while i < n
            invariant
                self.wf(),
                self.same_context(old(self)),
                self.next_id == old(self).next_id,
                es == old(self).entities@,
                i <= n,
                n == es.len(),
                self.entities@.len() == n,
                forall|k: int|
                    0 <= k < n ==> #[trigger] self.entities@[k] == (EntityRecord {
                        suffer_damage: suffer_after(es, k, n as nat),
                        wants_to_melee: if k < i {
                            None
                        } else {
                            es[k].wants_to_melee
                        },
                        ..es[k]
                    }),
            decreases n - i,
        {
            let e = self.entities[i];
            self.entities.set(i, EntityRecord { wants_to_melee: None, ..e });
            i = i + 1;
        }
        proof {
            assert(self.entities@ =~= melee_result(es));
        }
    }
}


impl EcsWorld {
    /// Damage: every entity takes its pending damage, which is then cleared.
    pub fn apply_damage(&mut self)
        requires
            old(self).wf(),
        ensures
            final(self).wf(),
            final(self).same_context(old(self)),
            final(self).next_id == old(self).next_id,
            final(self).entities@.len() == old(self).entities@.len(),
            forall|k: int|
                0 <= k < old(self).entities@.len() ==> #[trigger] final(self).entities@[k] == damaged(
                    old(self).entities@[k],
                ),
            final(self).entities@ == old(self).entities@.map_values(|e: EntityRecord| damaged(e)),
    {
        let mut i: usize = 0;
        while i < self.entities.len()
            invariant
                self.wf(),
                self.same_context(old(self)),
                self.next_id == old(self).next_id,
                i <= self.entities@.len(),
                self.entities@.len() == old(self).entities@.len(),
                forall|k: int|
                    0 <= k < self.entities@.len() ==> #[trigger] self.entities@[k] == if k < i {
                        damaged(old(self).entities@[k])
                    } else {
                        old(self).entities@[k]
                    },
            decreases self.entities@.len() - i,
        {
            let e = self.entities[i];
            match e.stats {
                Some(s) => {
                    let hp = sat_add_of(s.hp, -(e.suffer_damage as i64));
                    self.entities.set(
                        i,
                        EntityRecord { stats: Some(CombatStats { hp, ..s }), suffer_damage: 0, ..e },
                    );
                },
                None => {
                    self.entities.set(i, EntityRecord { suffer_damage: 0, ..e });
                },
            }
            i = i + 1;
        }
        proof {
            assert(self.entities@ =~= old(self).entities@.map_values(|e: EntityRecord| damaged(e)));
        }
    }

    /// Culling: dead entities other than the player are deleted; a dead
    /// player ends the game.
    pub fn cull_dead(&mut self)
        requires
            old(self).wf(),
        ensures
            final(self).wf(),
            final(self).player == old(self).player,
            final(self).player_pos == old(self).player_pos,
            final(self).map == old(self).map,
            final(self).log == old(self).log,
            final(self).next_id == old(self).next_id,
            final(self).entities@ == old(self).entities@.filter(
                |e: EntityRecord| survives_cull(e, old(self).player),
            ),
            final(self).run_state == if player_dead(old(self).entities@, old(self).player) {
                RunState::GameOver
            } else {
                old(self).run_state
            },
    {
        let ghost pred = |e: EntityRecord| survives_cull(e, self.player);
        let ghost es = self.entities@;
        let mut kept: Vec<EntityRecord> = Vec::new();
        let ghost mut src: Seq<int> = Seq::empty();
        let mut dead_player = false;
        let mut i: usize = 0;
        while i < self.entities.len()
            invariant
                i <= es.len(),
                es == self.entities@,
                self.wf(),
                self.run_state == old(self).run_state,
                self.player == old(self).player,
                self.player_pos == old(self).player_pos,
                self.map == old(self).map,
                self.log == old(self).log,
                self.next_id == old(self).next_id,
                es == old(self).entities@,
                pred == (|e: EntityRecord| survives_cull(e, self.player)),
                kept@ == es.subrange(0, i as int).filter(pred),
                src.len() == kept@.len(),
                forall|a: int| 0 <= a < src.len() ==> 0 <= #[trigger] src[a] < i && kept@[a] == es[src[a]],
                forall|a: int, b: int| 0 <= a < b < src.len() ==> #[trigger] src[a] < #[trigger] src[b],
                dead_player == exists|k: int|
                    0 <= k < i && (#[trigger] es[k]).id == self.player && es[k].stats is Some
                        && es[k].stats->0.hp <= 0,
            decreases es.len() - i,
        {
            let e = self.entities[i];
            proof {
                assert(es.subrange(0, i + 1) =~= es.subrange(0, i as int).push(e));
                es.subrange(0, i as int).lemma_filter_push(e, pred);
            }
            let dead = match e.stats {
                Some(s) => s.hp <= 0,
                None => false,
            };
            if dead && e.id == self.player {
                dead_player = true;
            }
            if !(dead && e.id != self.player) {
                kept.push(e);
                proof {
                    src = src.push(i as int);
                }
            }
            i = i + 1;
        }
        proof {
            assert(es.subrange(0, es.len() as int) =~= es);
            assert forall|a: int, b: int| 0 <= a < b < kept@.len() implies (#[trigger] kept@[a]).id
                != (#[trigger] kept@[b]).id by {
                assert(src[a] < src[b]);
            }
            assert forall|a: int| 0 <= a < kept@.len() implies (#[trigger] kept@[a]).id
                < self.next_id by {
                assert(kept@[a] == es[src[a]]);
            }
        }
        self.entities = kept;
        if dead_player {
            self.run_state = RunState::GameOver;
        }
    }

    /// Visibility: when the player's view is marked for recomputation, tiles
    /// within its range become visible and revealed, all others not visible,
    /// and the mark is cleared.
    pub fn visibility(&mut self)
        requires
            old(self).wf(),
        ensures
            final(self).wf(),
            final(self).player == old(self).player,
            final(self).player_pos == old(self).player_pos,
            final(self).log == old(self).log,
            final(self).run_state == old(self).run_state,
            final(self).next_id == old(self).next_id,
            final(self).map.width == old(self).map.width,
            final(self).map.height == old(self).map.height,
            final(self).map.depth == old(self).map.depth,
            final(self).map.tiles == old(self).map.tiles,
            final(self).map.tile_content == old(self).map.tile_content,
            final(self).entities@.len() == old(self).entities@.len(),
            match view_of(old(self).entities@, old(self).player) {
                Some((k, pos, range)) => {
                    &&& forall|i: int|
                        0 <= i < old(self).map.size() ==> #[trigger] final(self).map.status@[i]
                            == viewed_status(
                            old(self).map.status@[i],
                            in_view(pos, range as int, old(self).map.width as int, i),
                        )
                    &&& final(self).entities@ == old(self).entities@.update(
                        k,
                        EntityRecord {
                            viewshed: Some(Viewshed { dirty: false, ..old(self).entities@[k].viewshed->0 }),
                            ..old(self).entities@[k]
                        },
                    )
                },
                None => final(self).map == old(self).map && final(self).entities == old(self).entities,
            },
            final(self).entities@ == viewed_entities(old(self).entities@, old(self).player),
            forall|i: int|
                0 <= i < old(self).map.size() ==> #[trigger] final(self).map.status@[i]
                    == viewed_status_at(
                    old(self).map.status@,
                    old(self).entities@,
                    old(self).player,
                    old(self).map.width as int,
                    i,
                ),
    {
        match self.find(self.player) {
            Some(k) => {
                let e = self.entities[k];
                match (e.viewshed, e.position) {
                    (Some(v), Some(pos)) => {
                        if v.dirty {
                            proof {
                                assert(view_of(self.entities@, self.player) == Some((k as int, pos, v.range)));
                            }
                            self.recompute_view(pos, v.range);
                            self.entities.set(
                                k,
                                EntityRecord { viewshed: Some(Viewshed { dirty: false, ..v }), ..e },
                            );
                        }
                    },
                    _ => {},
                }
            },
            None => {},
        }
    }

    fn recompute_view(&mut self, pos: Position, range: i32)
        requires
            old(self).wf(),
        ensures
            final(self).wf(),
            final(self).entities == old(self).entities,
            final(self).player == old(self).player,
            final(self).player_pos == old(self).player_pos,
            final(self).log == old(self).log,
            final(self).run_state == old(self).run_state,
            final(self).next_id == old(self).next_id,
            final(self).map.width == old(self).map.width,
            final(self).map.height == old(self).map.height,
            final(self).map.depth == old(self).map.depth,
            final(self).map.tiles == old(self).map.tiles,
            final(self).map.tile_content == old(self).map.tile_content,
            forall|i: int|
                0 <= i < old(self).map.size() ==> #[trigger] final(self).map.status@[i]
                    == viewed_status(
                    old(self).map.status@[i],
                    in_view(pos, range as int, old(self).map.width as int, i),
                ),
    {
        let n = self.map.status.len();
        let w = self.map.width as usize;
        let mut i: usize = 0;
        while i < n
            invariant
                self.wf(),
                self.entities == old(self).entities,
                self.player == old(self).player,
                self.player_pos == old(self).player_pos,
                self.log == old(self).log,
                self.run_state == old(self).run_state,
                self.next_id == old(self).next_id,
                self.map.width == old(self).map.width,
                self.map.height == old(self).map.height,
                self.map.depth == old(self).map.depth,
                self.map.tiles == old(self).map.tiles,
                self.map.tile_content == old(self).map.tile_content,
                n == self.map.size(),
                w == self.map.width,
                i <= n,
                forall|k: int|
                    0 <= k < n ==> #[trigger] self.map.status@[k] == if k < i {
                        viewed_status(
                            old(self).map.status@[k],
                            in_view(pos, range as int, w as int, k),
                        )
                    } else {
                        old(self).map.status@[k]
                    },
            decreases n - i,
        {
            let x = (i % w) as i32;
            let y = (i / w) as i32;
            let d = chebyshev_of(Position { x, y }, pos);
            let s = self.map.status[i];
            if d <= range as i64 {
                self.map.status.set(i, s | VISIBLE | REVEALED);
            } else {
                self.map.status.set(i, s & !VISIBLE);
            }
            i = i + 1;
        }
    }
}


pub open spec fn intents_cleared(e: EntityRecord) -> EntityRecord {
    EntityRecord {
        wants_to_use: None,
        wants_to_drop: None,
        wants_to_remove: None,
        wants_to_pickup: None,
        ..e
    }
}

/// `e` after `player` picks up `item`, which must lie on the map.
pub open spec fn picked_up(e: EntityRecord, item: u64, player: u64) -> EntityRecord {
    if e.id == item && e.item && e.position is Some {
        EntityRecord { position: None, in_backpack: Some(player), ..e }
    } else {
        e
    }
}

/// `e` after `player`, standing at `pos`, drops `item` from its backpack.
pub open spec fn dropped(e: EntityRecord, item: u64, player: u64, pos: Position) -> EntityRecord {
    if e.id == item && e.in_backpack == Some(player) {
        EntityRecord { position: Some(pos), in_backpack: None, ..e }
    } else {
        e
    }
}

/// `e` after `player` takes off `item` and puts it in its backpack.
pub open spec fn unequipped(e: EntityRecord, item: u64, player: u64) -> EntityRecord {
    if e.id == item && e.equipped == Some(player) {
        EntityRecord { equipped: None, in_backpack: Some(player), ..e }
    } else {
        e
    }
}

/// `e` after `player` equips `item` in `slot`: whatever it wore there goes
/// back to the backpack.
pub open spec fn equip_step(e: EntityRecord, item: u64, player: u64, slot: EquipSlot) -> EntityRecord {
    if e.id == item {
        EntityRecord { equipped: Some(player), in_backpack: None, ..e }
    } else if e.equipped == Some(player) && e.equipable == Some(slot) {
        EntityRecord { equipped: None, in_backpack: Some(player), ..e }
    } else {
        e
    }
}

/// `e` after the player heals by `amount`, up to its maximum.
pub open spec fn healed(e: EntityRecord, player: u64, amount: i32) -> EntityRecord {
    if e.id == player && e.stats is Some {
        let s = e.stats->0;
        let hp = sat_add(s.hp, amount as int);
        EntityRecord {
            stats: Some(CombatStats { hp: if hp > s.max_hp { s.max_hp } else { hp }, ..s }),
            ..e
        }
    } else {
        e
    }
}

/// `e` after `damage` lands on everything with health within `radius` of
/// `center`.
pub open spec fn hurt(e: EntityRecord, center: Position, radius: i32, damage: i32) -> EntityRecord {
    if e.stats is Some && e.position is Some && chebyshev(e.position->0, center) <= radius {
        EntityRecord { suffer_damage: sat_add(e.suffer_damage, damage as int), ..e }
    } else {
        e
    }
}

/// The entities after `player`, standing at `pos`, uses `item`, possibly at
/// `target`: nothing happens unless the item is in its backpack.
pub open spec fn used(
    es: Seq<EntityRecord>,
    item: u64,
    target: Option<Position>,
    player: u64,
    pos: Position,
) -> Seq<EntityRecord> {
    if exists|k: int| 0 <= k < es.len() && (#[trigger] es[k]).id == item {
        let it = es[choose|k: int| 0 <= k < es.len() && (#[trigger] es[k]).id == item];
        if it.in_backpack == Some(player) {
            let s1 = match it.equipable {
                Some(slot) => es.map_values(|e: EntityRecord| equip_step(e, item, player, slot)),
                None => es,
            };
            let s2 = match it.provides_healing {
                Some(h) => s1.map_values(|e: EntityRecord| healed(e, player, h)),
                None => s1,
            };
            let center = match target {
                Some(p) => p,
                None => pos,
            };
            let radius = match it.area_of_effect {
                Some(r) => r,
                None => 0,
            };
            let s3 = match it.inflicts_damage {
                Some(d) => s2.map_values(|e: EntityRecord| hurt(e, center, radius, d)),
                None => s2,
            };
            if it.consumable {
                s3.filter(|e: EntityRecord| e.id != item)
            } else {
                s3
            }
        } else {
            es
        }
    } else {
        es
    }
}

/// The entities after the player's item intents are resolved, in the order
/// pick up, use, drop, remove; every item intent is consumed.
pub open spec fn items_resolved(es: Seq<EntityRecord>, player: u64, pos: Position) -> Seq<
    EntityRecord,
> {
    let s0 = es.map_values(|e: EntityRecord| intents_cleared(e));
    if exists|k: int| 0 <= k < es.len() && (#[trigger] es[k]).id == player {
        let pe = es[choose|k: int| 0 <= k < es.len() && (#[trigger] es[k]).id == player];
        let s1 = match pe.wants_to_pickup {
            Some(item) => s0.map_values(|e: EntityRecord| picked_up(e, item, player)),
            None => s0,
        };
        let s2 = match pe.wants_to_use {
            Some(u) => used(s1, u.item, u.target, player, pos),
            None => s1,
        };
        let s3 = match pe.wants_to_drop {
            Some(item) => s2.map_values(|e: EntityRecord| dropped(e, item, player, pos)),
            None => s2,
        };
        match pe.wants_to_remove {
            Some(item) => s3.map_values(|e: EntityRecord| unequipped(e, item, player)),
            None => s3,
        }
    } else {
        s0
    }
}

impl EcsWorld {
    fn clear_item_intents(&mut self)
        requires
            old(self).wf(),
        ensures
            final(self).wf(),
            final(self).same_context(old(self)),
            final(self).next_id == old(self).next_id,
            final(self).entities@.len() == old(self).entities@.len(),
            final(self).entities@ == old(self).entities@.map_values(|e: EntityRecord| intents_cleared(e)),
    {
        let mut i: usize = 0;
        while i < self.entities.len()
            invariant
                self.wf(),
                self.same_context(old(self)),
                self.next_id == old(self).next_id,
                i <= self.entities@.len(),
                self.entities@.len() == old(self).entities@.len(),
                forall|k: int|
                    0 <= k < self.entities@.len() ==> #[trigger] self.entities@[k] == if k < i {
                        intents_cleared(old(self).entities@[k])
                    } else {
                        old(self).entities@[k]
                    },
            decreases self.entities@.len() - i,
        {
            let e = self.entities[i];
            let ne = EntityRecord {
                wants_to_use: None,
                wants_to_drop: None,
                wants_to_remove: None,
                wants_to_pickup: None,
                ..e
            };
            self.entities.set(i, ne);
            i = i + 1;
        }
        proof {
            assert(self.entities@ =~= old(self).entities@.map_values(|e: EntityRecord| intents_cleared(e)));
        }
    }

    fn pick_up(&mut self, item: u64)
        requires
            old(self).wf(),
        ensures
            final(self).wf(),
            final(self).same_context(old(self)),
            final(self).next_id == old(self).next_id,
            final(self).entities@.len() == old(self).entities@.len(),
            final(self).entities@ == old(self).entities@.map_values(|e: EntityRecord| picked_up(e, item, old(self).player)),
    {
        let mut i: usize = 0;
        while i < self.entities.len()
            invariant
                self.wf(),
                self.same_context(old(self)),
                self.next_id == old(self).next_id,
                i <= self.entities@.len(),
                self.entities@.len() == old(self).entities@.len(),
                forall|k: int|
                    0 <= k < self.entities@.len() ==> #[trigger] self.entities@[k] == if k < i {
                        picked_up(old(self).entities@[k], item, old(self).player)
                    } else {
                        old(self).entities@[k]
                    },
            decreases self.entities@.len() - i,
        {
            let e = self.entities[i];
            let ne = if e.id == item && e.item && e.position.is_some() {
                EntityRecord { position: None, in_backpack: Some(self.player), ..e }
            } else {
                e
            };
            self.entities.set(i, ne);
            i = i + 1;
        }
        proof {
            assert(self.entities@ =~= old(self).entities@.map_values(|e: EntityRecord| picked_up(e, item, old(self).player)));
        }
    }

    fn drop_item(&mut self, item: u64)
        requires
            old(self).wf(),
        ensures
            final(self).wf(),
            final(self).same_context(old(self)),
            final(self).next_id == old(self).next_id,
            final(self).entities@.len() == old(self).entities@.len(),
            final(self).entities@ == old(self).entities@.map_values(|e: EntityRecord| dropped(e, item, old(self).player, old(self).player_pos)),
    {
        let mut i: usize = 0;
        while i < self.entities.len()
            invariant
                self.wf(),
                self.same_context(old(self)),
                self.next_id == old(self).next_id,
                i <= self.entities@.len(),
                self.entities@.len() == old(self).entities@.len(),
                forall|k: int|
                    0 <= k < self.entities@.len() ==> #[trigger] self.entities@[k] == if k < i {
                        dropped(old(self).entities@[k], item, old(self).player, old(self).player_pos)
                    } else {
                        old(self).entities@[k]
                    },
            decreases self.entities@.len() - i,
        {
            let e = self.entities[i];
            let carried = match e.in_backpack {
                Some(o) => o == self.player,
                None => false,
            };
            let ne = if e.id == item && carried {
                EntityRecord { position: Some(self.player_pos), in_backpack: None, ..e }
            } else {
                e
            };
            self.entities.set(i, ne);
            i = i + 1;
        }
        proof {
            assert(self.entities@ =~= old(self).entities@.map_values(|e: EntityRecord| dropped(e, item, old(self).player, old(self).player_pos)));
        }
    }

    fn remove_item(&mut self, item: u64)
        requires
            old(self).wf(),
        ensures
            final(self).wf(),
            final(self).same_context(old(self)),
            final(self).next_id == old(self).next_id,
            final(self).entities@.len() == old(self).entities@.len(),
            final(self).entities@ == old(self).entities@.map_values(|e: EntityRecord| unequipped(e, item, old(self).player)),
    {
        let mut i: usize = 0;
        while i < self.entities.len()
            invariant
                self.wf(),
                self.same_context(old(self)),
                self.next_id == old(self).next_id,
                i <= self.entities@.len(),
                self.entities@.len() == old(self).entities@.len(),
                forall|k: int|
                    0 <= k < self.entities@.len() ==> #[trigger] self.entities@[k] == if k < i {
                        unequipped(old(self).entities@[k], item, old(self).player)
                    } else {
                        old(self).entities@[k]
                    },
            decreases self.entities@.len() - i,
        {
            let e = self.entities[i];
            let worn = match e.equipped {
                Some(o) => o == self.player,
                None => false,
            };
            let ne = if e.id == item && worn {
                EntityRecord { equipped: None, in_backpack: Some(self.player), ..e }
            } else {
                e
            };
            self.entities.set(i, ne);
            i = i + 1;
        }
        proof {
            assert(self.entities@ =~= old(self).entities@.map_values(|e: EntityRecord| unequipped(e, item, old(self).player)));
        }
    }

    fn equip_item(&mut self, item: u64, slot: EquipSlot)
        requires
            old(self).wf(),
        ensures
            final(self).wf(),
            final(self).same_context(old(self)),
            final(self).next_id == old(self).next_id,
            final(self).entities@.len() == old(self).entities@.len(),
            final(self).entities@ == old(self).entities@.map_values(|e: EntityRecord| equip_step(e, item, old(self).player, slot)),
    {
        let mut i: usize = 0;
        while i < self.entities.len()
            invariant
                self.wf(),
                self.same_context(old(self)),
                self.next_id == old(self).next_id,
                i <= self.entities@.len(),
                self.entities@.len() == old(self).entities@.len(),
                forall|k: int|
                    0 <= k < self.entities@.len() ==> #[trigger] self.entities@[k] == if k < i {
                        equip_step(old(self).entities@[k], item, old(self).player, slot)
                    } else {
                        old(self).entities@[k]
                    },
            decreases self.entities@.len() - i,
        {
            let e = self.entities[i];
            let worn = match e.equipped {
                Some(o) => o == self.player,
                None => false,
            };
            let same_slot = match e.equipable {
                Some(sl) => sl == slot,
                None => false,
            };
            let ne = if e.id == item {
                EntityRecord { equipped: Some(self.player), in_backpack: None, ..e }
            } else if worn && same_slot {
                EntityRecord { equipped: None, in_backpack: Some(self.player), ..e }
            } else {
                e
            };
            self.entities.set(i, ne);
            i = i + 1;
        }
        proof {
            assert(self.entities@ =~= old(self).entities@.map_values(|e: EntityRecord| equip_step(e, item, old(self).player, slot)));
        }
    }

    fn heal_player(&mut self, amount: i32)
        requires
            old(self).wf(),
        ensures
            final(self).wf(),
            final(self).same_context(old(self)),
            final(self).next_id == old(self).next_id,
            final(self).entities@.len() == old(self).entities@.len(),
            final(self).entities@ == old(self).entities@.map_values(|e: EntityRecord| healed(e, old(self).player, amount)),
    {
        let mut i: usize = 0;
        while i < self.entities.len()
            invariant
                self.wf(),
                self.same_context(old(self)),
                self.next_id == old(self).next_id,
                i <= self.entities@.len(),
                self.entities@.len() == old(self).entities@.len(),
                forall|k: int|
                    0 <= k < self.entities@.len() ==> #[trigger] self.entities@[k] == if k < i {
                        healed(old(self).entities@[k], old(self).player, amount)
                    } else {
                        old(self).entities@[k]
                    },
            decreases self.entities@.len() - i,
        {
            let e = self.entities[i];
            let ne = if e.id == self.player {
                match e.stats {
                    Some(s) => {
                        let hp = sat_add_of(s.hp, amount as i64);
                        let hp = if hp > s.max_hp {
                            s.max_hp
                        } else {
                            hp
                        };
                        EntityRecord { stats: Some(CombatStats { hp, ..s }), ..e }
                    },
                    None => e,
                }
            } else {
                e
            };
            self.entities.set(i, ne);
            i = i + 1;
        }
        proof {
            assert(self.entities@ =~= old(self).entities@.map_values(|e: EntityRecord| healed(e, old(self).player, amount)));
        }
    }

    fn hurt_area(&mut self, center: Position, radius: i32, damage: i32)
        requires
            old(self).wf(),
        ensures
            final(self).wf(),
            final(self).same_context(old(self)),
            final(self).next_id == old(self).next_id,
            final(self).entities@.len() == old(self).entities@.len(),
            final(self).entities@ == old(self).entities@.map_values(|e: EntityRecord| hurt(e, center, radius, damage)),
    {
        let mut i: usize = 0;
        while i < self.entities.len()
            invariant
                self.wf(),
                self.same_context(old(self)),
                self.next_id == old(self).next_id,
                i <= self.entities@.len(),
                self.entities@.len() == old(self).entities@.len(),
                forall|k: int|
                    0 <= k < self.entities@.len() ==> #[trigger] self.entities@[k] == if k < i {
                        hurt(old(self).entities@[k], center, radius, damage)
                    } else {
                        old(self).entities@[k]
                    },
            decreases self.entities@.len() - i,
        {
            let e = self.entities[i];
            let ne = match (e.stats, e.position) {
                (Some(_), Some(p)) => {
                    if chebyshev_of(p, center) <= radius as i64 {
                        EntityRecord { suffer_damage: sat_add_of(e.suffer_damage, damage as i64), ..e }
                    } else {
                        e
                    }
                },
                _ => e,
            };
            self.entities.set(i, ne);
            i = i + 1;
        }
        proof {
            assert(self.entities@ =~= old(self).entities@.map_values(|e: EntityRecord| hurt(e, center, radius, damage)));
        }
    }
}

impl EcsWorld {
    /// Indexing: each tile's occupant list is rebuilt from the entities'
    /// positions, and a tile is blocked when it is a wall or something that
    /// blocks stands on it.
    pub fn map_indexing(&mut self)
        requires
            old(self).wf(),
        ensures
            final(self).wf(),
            final(self).entities == old(self).entities,
            final(self).player == old(self).player,
            final(self).player_pos == old(self).player_pos,
            final(self).log == old(self).log,
            final(self).run_state == old(self).run_state,
            final(self).next_id == old(self).next_id,
            final(self).map.width == old(self).map.width,
            final(self).map.height == old(self).map.height,
            final(self).map.depth == old(self).map.depth,
            final(self).map.tiles == old(self).map.tiles,
            forall|i: int|
                0 <= i < old(self).map.size() ==> (#[trigger] final(self).map.tile_content@[i])@
                    == occupants(
                    old(self).entities@,
                    old(self).map.width as int,
                    old(self).map.height as int,
                    i,
                ),
            forall|i: int|
                0 <= i < old(self).map.size() ==> #[trigger] final(self).map.status@[i]
                    == with_blocked(
                    old(self).map.status@[i],
                    blocked_at(
                        old(self).map.tiles@,
                        old(self).entities@,
                        old(self).map.width as int,
                        old(self).map.height as int,
                        i,
                    ),
                ),
    {
        let ghost es = self.entities@;
        let ghost w = self.map.width as int;
        let ghost h = self.map.height as int;
        let ghost idf = |e: EntityRecord| e.id;
        let n = self.map.tiles.len();
        let mut i: usize = 0;
        while i < n
            invariant
                self.wf(),
                self.entities == old(self).entities,
                self.player == old(self).player,
                self.player_pos == old(self).player_pos,
                self.log == old(self).log,
                self.run_state == old(self).run_state,
                self.next_id == old(self).next_id,
                self.map.width == old(self).map.width,
                self.map.height == old(self).map.height,
                self.map.depth == old(self).map.depth,
                self.map.tiles == old(self).map.tiles,
                n == self.map.size(),
                i <= n,
                forall|k: int|
                    0 <= k < n ==> #[trigger] self.map.status@[k] == if k < i {
                        with_blocked(old(self).map.status@[k], self.map.tiles@[k] == TileKind::Wall)
                    } else {
                        old(self).map.status@[k]
                    },
                forall|k: int| 0 <= k < i ==> (#[trigger] self.map.tile_content@[k])@.len() == 0,
            decreases n - i,
        {
            let s = self.map.status[i];
            let wall = match self.map.tiles[i] {
                TileKind::Wall => true,
                _ => false,
            };
            if wall {
                self.map.status.set(i, s | BLOCKED);
            } else {
                self.map.status.set(i, s & !BLOCKED);
            }
            self.map.tile_content.set(i, Vec::new());
            i = i + 1;
        }
        let ghost cleared = self.map.status@;
        let mut k: usize = 0;
        while k < self.entities.len()
            invariant
                self.wf(),
                self.entities == old(self).entities,
                es == old(self).entities@,
                self.player == old(self).player,
                self.player_pos == old(self).player_pos,
                self.log == old(self).log,
                self.run_state == old(self).run_state,
                self.next_id == old(self).next_id,
                self.map.width == old(self).map.width,
                self.map.height == old(self).map.height,
                self.map.depth == old(self).map.depth,
                self.map.tiles == old(self).map.tiles,
                w == self.map.width,
                h == self.map.height,
                idf == (|e: EntityRecord| e.id),
                n == self.map.size(),
                k <= es.len(),
                cleared.len() == n,
                forall|t: int|
                    0 <= t < n ==> #[trigger] cleared[t] == with_blocked(
                        old(self).map.status@[t],
                        self.map.tiles@[t] == TileKind::Wall,
                    ),
                forall|t: int|
                    0 <= t < n ==> (#[trigger] self.map.tile_content@[t])@ == es.subrange(
                        0,
                        k as int,
                    ).filter(|e: EntityRecord| stands_on(e, w, h, t)).map_values(idf),
                forall|t: int|
                    0 <= t < n ==> #[trigger] self.map.status@[t] == with_blocked(
                        old(self).map.status@[t],
                        blocked_at(self.map.tiles@, es.subrange(0, k as int), w, h, t),
                    ),
            decreases es.len() - k,
        {
            let e = self.entities[k];
            let ghost before_content = self.map.tile_content@;
            let ghost before_status = self.map.status@;
            let mut target: Option<usize> = None;
            match e.position {
                Some(p) => {
                    if 0 <= p.x && p.x < self.map.width && 0 <= p.y && p.y < self.map.height {
                        let idx = self.map.xy_idx(p.x, p.y);
                        target = Some(idx);
                        if e.blocks_tile {
                            let s = self.map.status[idx];
                            self.map.status.set(idx, s | BLOCKED);
                        }
                        self.map.tile_content[idx].push(e.id);
                    }
                },
                None => {},
            }
            proof {
                let sub = es.subrange(0, k as int);
                assert(es.subrange(0, k + 1) =~= sub.push(e));
                assert forall|t: int| 0 <= t < n implies (#[trigger] self.map.tile_content@[t])@
                    == es.subrange(0, k + 1).filter(|e: EntityRecord| stands_on(e, w, h, t)).map_values(
                    idf,
                ) by {
                    let pred = |e: EntityRecord| stands_on(e, w, h, t);
                    sub.lemma_filter_push(e, pred);
                    let f = sub.filter(pred);
                    assert(f.push(e).map_values(idf) =~= f.map_values(idf).push(e.id));
                    if target == Some(t as usize) {
                        assert(stands_on(e, w, h, t));
                    } else {
                        assert(!stands_on(e, w, h, t));
                        assert(self.map.tile_content@[t] == before_content[t]);
                    }
                }
                assert forall|t: int| 0 <= t < n implies #[trigger] self.map.status@[t]
                    == with_blocked(
                    old(self).map.status@[t],
                    blocked_at(self.map.tiles@, es.subrange(0, k + 1), w, h, t),
                ) by {
                    lemma_blocked_bits(old(self).map.status@[t]);
                    let full = es.subrange(0, k + 1);
                    if blocked_at(self.map.tiles@, sub, w, h, t) && self.map.tiles@[t] != TileKind::Wall {
                        let m = choose|m: int|
                            0 <= m < sub.len() && (#[trigger] sub[m]).blocks_tile && stands_on(
                                sub[m],
                                w,
                                h,
                                t,
                            );
                        assert(full[m] == sub[m]);
                    }
                    if e.blocks_tile && target == Some(t as usize) {
                        assert(full[k as int] == e);
                        assert(stands_on(e, w, h, t));
                    }
                    if blocked_at(self.map.tiles@, full, w, h, t) && self.map.tiles@[t] != TileKind::Wall {
                        let m = choose|m: int|
                            0 <= m < full.len() && (#[trigger] full[m]).blocks_tile && stands_on(
                                full[m],
                                w,
                                h,
                                t,
                            );
                        if m < k {
                            assert(sub[m] == full[m]);
                        } else {
                            assert(full[m] == e);
                        }
                    }
                }
            }
            k = k + 1;
        }
        proof {
            assert(es.subrange(0, es.len() as int) =~= es);
        }
    }
}


/// No intent is left on `e`.
pub open spec fn quiet(e: EntityRecord) -> bool {
    &&& e.wants_to_melee is None
    &&& e.wants_to_use is None
    &&& e.wants_to_drop is None
    &&& e.wants_to_remove is None
    &&& e.wants_to_pickup is None
}

pub open spec fn all_quiet(es: Seq<EntityRecord>) -> bool {
    forall|k: int| 0 <= k < es.len() ==> quiet(#[trigger] es[k])
}

proof fn lemma_filter_keeps_quiet(es: Seq<EntityRecord>, pred: spec_fn(EntityRecord) -> bool)
    requires
        all_quiet(es),
    ensures
        all_quiet(es.filter(pred)),
{
    assert forall|k: int| 0 <= k < es.filter(pred).len() implies quiet(#[trigger] es.filter(pred)[k]) by {
        let x = es.filter(pred)[k];
        assert(es.filter(pred).contains(x));
        es.lemma_filter_contains_rev(pred, x);
    }
}

proof fn lemma_used_keeps_quiet(
    es: Seq<EntityRecord>,
    item: u64,
    target: Option<Position>,
    player: u64,
    pos: Position,
)
    requires
        all_quiet(es),
    ensures
        all_quiet(used(es, item, target, player, pos)),
{
    if exists|k: int| 0 <= k < es.len() && (#[trigger] es[k]).id == item {
        let it = es[choose|k: int| 0 <= k < es.len() && (#[trigger] es[k]).id == item];
        if it.in_backpack == Some(player) {
            let s1 = match it.equipable {
                Some(slot) => es.map_values(|e: EntityRecord| equip_step(e, item, player, slot)),
                None => es,
            };
            let s2 = match it.provides_healing {
                Some(h) => s1.map_values(|e: EntityRecord| healed(e, player, h)),
                None => s1,
            };
            let center = match target {
                Some(p) => p,
                None => pos,
            };
            let radius = match it.area_of_effect {
                Some(r) => r,
                None => 0,
            };
            let s3 = match it.inflicts_damage {
                Some(d) => s2.map_values(|e: EntityRecord| hurt(e, center, radius, d)),
                None => s2,
            };
            assert(all_quiet(s1));
            assert(all_quiet(s2));
            assert(all_quiet(s3));
            if it.consumable {
                lemma_filter_keeps_quiet(s3, |e: EntityRecord| e.id != item);
            }
        }
    }
}

proof fn lemma_items_leave_quiet(es: Seq<EntityRecord>, player: u64, pos: Position)
    requires
        forall|k: int| 0 <= k < es.len() ==> (#[trigger] es[k]).wants_to_melee is None,
    ensures
        all_quiet(items_resolved(es, player, pos)),
{
    let s0 = es.map_values(|e: EntityRecord| intents_cleared(e));
    assert(all_quiet(s0));
    if exists|k: int| 0 <= k < es.len() && (#[trigger] es[k]).id == player {
        let pe = es[choose|k: int| 0 <= k < es.len() && (#[trigger] es[k]).id == player];
        let s1 = match pe.wants_to_pickup {
            Some(item) => s0.map_values(|e: EntityRecord| picked_up(e, item, player)),
            None => s0,
        };
        assert(all_quiet(s1));
        let s2 = match pe.wants_to_use {
            Some(u) => used(s1, u.item, u.target, player, pos),
            None => s1,
        };
        match pe.wants_to_use {
            Some(u) => lemma_used_keeps_quiet(s1, u.item, u.target, player, pos),
            None => {},
        }
        let s3 = match pe.wants_to_drop {
            Some(item) => s2.map_values(|e: EntityRecord| dropped(e, item, player, pos)),
            None => s2,
        };
        assert(all_quiet(s3));
        match pe.wants_to_remove {
            Some(item) => {
                assert(all_quiet(s3.map_values(|e: EntityRecord| unequipped(e, item, player))));
            },
            None => {},
        }
    }
}

impl EcsWorld {
    /// Deletes the entity with id `id`, if there is one.
    pub fn delete_entity(&mut self, id: u64)
        requires
            old(self).wf(),
        ensures
            final(self).wf(),
            final(self).same_context(old(self)),
            final(self).next_id == old(self).next_id,
            final(self).entities@ == old(self).entities@.filter(|e: EntityRecord| e.id != id),
    {
        let ghost pred = |e: EntityRecord| e.id != id;
        let ghost es = self.entities@;
        let mut kept: Vec<EntityRecord> = Vec::new();
        let ghost mut src: Seq<int> = Seq::empty();
        let mut i: usize = 0;
        while i < self.entities.len()
            invariant
                i <= es.len(),
                es == self.entities@,
                self.wf(),
                self.same_context(old(self)),
                self.next_id == old(self).next_id,
                es == old(self).entities@,
                pred == (|e: EntityRecord| e.id != id),
                kept@ == es.subrange(0, i as int).filter(pred),
                src.len() == kept@.len(),
                forall|a: int| 0 <= a < src.len() ==> 0 <= #[trigger] src[a] < i && kept@[a] == es[src[a]],
                forall|a: int, b: int| 0 <= a < b < src.len() ==> #[trigger] src[a] < #[trigger] src[b],
            decreases es.len() - i,
        {
            let e = self.entities[i];
            proof {
                assert(es.subrange(0, i + 1) =~= es.subrange(0, i as int).push(e));
                es.subrange(0, i as int).lemma_filter_push(e, pred);
            }
            if e.id != id {
                kept.push(e);
                proof {
                    src = src.push(i as int);
                }
            }
            i = i + 1;
        }
        proof {
            assert(es.subrange(0, es.len() as int) =~= es);
            assert forall|a: int, b: int| 0 <= a < b < kept@.len() implies (#[trigger] kept@[a]).id
                != (#[trigger] kept@[b]).id by {
                assert(src[a] < src[b]);
            }
            assert forall|a: int| 0 <= a < kept@.len() implies (#[trigger] kept@[a]).id
                < self.next_id by {
                assert(kept@[a] == es[src[a]]);
            }
        }
        self.entities = kept;
    }

    /// The player uses `item`, possibly at `target`: equipment is worn,
    /// healing restores health, damage lands around the target (the player's
    /// own tile without one), and consumables are used up.
    pub fn use_item(&mut self, item: u64, target: Option<Position>)
        requires
            old(self).wf(),
        ensures
            final(self).wf(),
            final(self).same_context(old(self)),
            final(self).next_id == old(self).next_id,
            final(self).entities@ == used(
                old(self).entities@,
                item,
                target,
                old(self).player,
                old(self).player_pos,
            ),
    {
        match self.find(item) {
            Some(j) => {
                let it = self.entities[j];
                proof {
                    let k = choose|k: int|
                        0 <= k < self.entities@.len() && (#[trigger] self.entities@[k]).id == item;
                    assert(k == j);
                }
                let carried = match it.in_backpack {
                    Some(o) => o == self.player,
                    None => false,
                };
                if carried {
                    match it.equipable {
                        Some(slot) => self.equip_item(item, slot),
                        None => {},
                    }
                    match it.provides_healing {
                        Some(h) => self.heal_player(h),
                        None => {},
                    }
                    match it.inflicts_damage {
                        Some(d) => {
                            let center = match target {
                                Some(p) => p,
                                None => self.player_pos,
                            };
                            let radius = match it.area_of_effect {
                                Some(r) => r,
                                None => 0,
                            };
                            self.hurt_area(center, radius, d);
                        },
                        None => {},
                    }
                    if it.consumable {
                        self.delete_entity(item);
                    }
                }
            },
            None => {},
        }
    }

    /// Item resolution: the player's pick-up, use, drop and remove intents
    /// take effect in that order, and every item intent is consumed.
    pub fn resolve_item_intents(&mut self)
        requires
            old(self).wf(),
        ensures
            final(self).wf(),
            final(self).same_context(old(self)),
            final(self).next_id == old(self).next_id,
            final(self).entities@ == items_resolved(
                old(self).entities@,
                old(self).player,
                old(self).player_pos,
            ),
    {
        let pk = self.find(self.player);
        let pe = match pk {
            Some(k) => Some(self.entities[k]),
            None => None,
        };
        proof {
            if pk is Some {
                let k = choose|k: int|
                    0 <= k < self.entities@.len() && (#[trigger] self.entities@[k]).id == self.player;
                assert(k == pk->0);
            }
        }
        self.clear_item_intents();
        match pe {
            Some(pe) => {
                match pe.wants_to_pickup {
                    Some(item) => self.pick_up(item),
                    None => {},
                }
                match pe.wants_to_use {
                    Some(u) => self.use_item(u.item, u.target),
                    None => {},
                }
                match pe.wants_to_drop {
                    Some(item) => self.drop_item(item),
                    None => {},
                }
                match pe.wants_to_remove {
                    Some(item) => self.remove_item(item),
                    None => {},
                }
            },
            None => {},
        }
    }

    /// The full system pipeline, in its fixed order: visibility, monster AI,
    /// indexing, melee, damage, items, culling.
    pub fn run_systems(&mut self)
        requires
            old(self).wf(),
        ensures
            final(self).wf(),
            final(self).player == old(self).player,
            final(self).player_pos == old(self).player_pos,
            final(self).log == old(self).log,
            final(self).next_id == old(self).next_id,
            final(self).map.width == old(self).map.width,
            final(self).map.height == old(self).map.height,
            final(self).map.depth == old(self).map.depth,
            final(self).map.tiles == old(self).map.tiles,
            pipeline_ran(*old(self), *final(self), old(self).run_state),
            forall|k: int|
                0 <= k < final(self).entities@.len() ==> survives_cull(
                    #[trigger] final(self).entities@[k],
                    final(self).player,
                ),
            all_quiet(final(self).entities@),
    {
        self.visibility();
        let ghost viewed = *self;
        self.monster_ai();
        self.map_indexing();
        let ghost indexed = *self;
        self.melee_combat();
        self.apply_damage();
        let ghost before_items = self.entities@;
        self.resolve_item_intents();
        proof {
            lemma_items_leave_quiet(before_items, self.player, self.player_pos);
        }
        let ghost before_cull = self.entities@;
        self.cull_dead();
        proof {
            let pred = |e: EntityRecord| survives_cull(e, self.player);
            lemma_filter_keeps_quiet(before_cull, pred);
            assert forall|k: int| 0 <= k < self.entities@.len() implies survives_cull(
                #[trigger] self.entities@[k],
                self.player,
            ) by {
                before_cull.lemma_filter_pred(pred, k);
            }
            assert(before_items == fought(viewed.entities@, self.player, self.player_pos));
            assert(indexed.entities@ == viewed.entities@.map_values(
                |e: EntityRecord| ai_step(e, self.player, self.player_pos),
            ));
        }
    }
}

/// The entities after a visibility pass: the player's view no longer marked.
pub open spec fn viewed_entities(es: Seq<EntityRecord>, player: u64) -> Seq<EntityRecord> {
    match view_of(es, player) {
        Some((k, _, _)) => es.update(
            k,
            EntityRecord { viewshed: Some(Viewshed { dirty: false, ..es[k].viewshed->0 }), ..es[k] },
        ),
        None => es,
    }
}

/// Tile `i`'s status after a visibility pass.
pub open spec fn viewed_status_at(
    status: Seq<u8>,
    es: Seq<EntityRecord>,
    player: u64,
    w: int,
    i: int,
) -> u8 {
    match view_of(es, player) {
        Some((_, pos, range)) => viewed_status(status[i], in_view(pos, range as int, w, i)),
        None => status[i],
    }
}

/// The entities after melee: each takes the damage of every living attacker
/// aiming at it, and no melee intent is left.
pub open spec fn melee_result(es: Seq<EntityRecord>) -> Seq<EntityRecord> {
    Seq::new(
        es.len(),
        |k: int|
            EntityRecord {
                suffer_damage: suffer_after(es, k, es.len() as nat),
                wants_to_melee: None,
                ..es[k]
            },
    )
}

/// The entities after AI, melee and damage, before item resolution.
pub open spec fn fought(es: Seq<EntityRecord>, player: u64, pos: Position) -> Seq<EntityRecord> {
    melee_result(es.map_values(|e: EntityRecord| ai_step(e, player, pos))).map_values(
        |e: EntityRecord| damaged(e),
    )
}

/// `new` is `old` after one run of the full pipeline, which was to move to
/// `next` unless the player died: the entities pass through each stage's
/// effect in order (visibility, AI, melee, damage, items, culling), the
/// occupant lists and blocked bits are rebuilt from the positions after AI,
/// and the game is over exactly when the player's record is dead before the
/// cull.
pub open spec fn pipeline_ran(old: EcsWorld, new: EcsWorld, next: RunState) -> bool {
    let p = old.player;
    let pos = old.player_pos;
    let w = old.map.width as int;
    let h = old.map.height as int;
    let v = viewed_entities(old.entities@, p);
    let a = v.map_values(|e: EntityRecord| ai_step(e, p, pos));
    let items = items_resolved(fought(v, p, pos), p, pos);
    &&& new.wf()
    &&& new.entities@ == items.filter(|e: EntityRecord| survives_cull(e, p))
    &&& new.run_state == if player_dead(items, p) {
        RunState::GameOver
    } else {
        next
    }
    &&& new.player == p
    &&& new.player_pos == pos
    &&& new.log == old.log
    &&& new.next_id == old.next_id
    &&& new.map.width == old.map.width
    &&& new.map.height == old.map.height
    &&& new.map.depth == old.map.depth
    &&& new.map.tiles == old.map.tiles
    &&& forall|i: int|
        0 <= i < old.map.size() ==> (#[trigger] new.map.tile_content@[i])@ == occupants(a, w, h, i)
    &&& forall|i: int|
        0 <= i < old.map.size() ==> #[trigger] new.map.status@[i] == with_blocked(
            viewed_status_at(old.map.status@, old.entities@, p, w, i),
            blocked_at(old.map.tiles@, a, w, h, i),
        )
}

/// Where the player's view waits for recomputation: the index of its record,
/// its position and its range.
pub open spec fn view_of(es: Seq<EntityRecord>, player: u64) -> Option<(int, Position, i32)> {
    if exists|k: int| 0 <= k < es.len() && (#[trigger] es[k]).id == player {
        let k = choose|k: int| 0 <= k < es.len() && (#[trigger] es[k]).id == player;
        let e = es[k];
        if e.viewshed is Some && e.position is Some && e.viewshed->0.dirty {
            Some((k, e.position->0, e.viewshed->0.range))
        } else {
            None
        }
    } else {
        None
    }
}

} // verus!
