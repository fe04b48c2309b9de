//! What the player's keys do to the world: stepping, attacking, picking up,
//! descending.

use crate::grid::{idx_of, is_open, TileKind, BLOCKED};
use crate::state::{Position, RunState};
use crate::systems::alive;
use crate::world::{moved_to, EcsWorld, EntityRecord};
use vstd::prelude::*;

verus! {

/// The player's record aims a melee attack at `target`.
pub open spec fn aiming_at(es: Seq<EntityRecord>, player: u64, target: u64) -> bool {
    exists|k: int|
        0 <= k < es.len() && (#[trigger] es[k]).id == player && es[k].wants_to_melee == Some(
            target,
        )
}

/// `new` is `old` with the player's record aiming a melee attack at `target`.
pub open spec fn aimed(old: Seq<EntityRecord>, new: Seq<EntityRecord>, player: u64, target: u64) -> bool {
    &&& new.len() == old.len()
    &&& forall|k: int|
        0 <= k < old.len() ==> #[trigger] new[k] == if old[k].id == player {
            EntityRecord { wants_to_melee: Some(target), ..old[k] }
        } else {
            old[k]
        }
}

/// A living entity other than the player with id `id`.
pub open spec fn is_foe(es: Seq<EntityRecord>, player: u64, id: u64) -> bool {
    id != player && exists|k: int| 0 <= k < es.len() && (#[trigger] es[k]).id == id && alive(es[k])
}

/// The first item lying at `pos`, by entity order.
pub open spec fn is_first_item_at(es: Seq<EntityRecord>, pos: Position, k: int) -> bool {
    &&& 0 <= k < es.len()
    &&& es[k].item
    &&& es[k].position == Some(pos)
    &&& forall|j: int| 0 <= j < k ==> !((#[trigger] es[j]).item && es[j].position == Some(pos))
}

impl EcsWorld {
    /// Index of a living entity other than the player with id `id`.
    fn foe_index(&self, id: u64) -> (r: Option<usize>)
        requires
            self.wf(),
        ensures
            r is Some <==> is_foe(self.entities@, self.player, id),
            r is Some ==> r->0 < self.entities@.len() && self.entities@[r->0 as int].id == id,
    {
        if id == self.player {
            return None;
        }
        match self.find(id) {
            Some(k) => {
                let living = match self.entities[k].stats {
                    Some(s) => s.hp > 0,
                    None => false,
                };
                if living {
                    Some(k)
                } else {
                    None
                }
            },
            None => None,
        }
    }

    /// Sets the player's melee intent.
    fn aim_at(&mut self, target: u64)
        requires
            old(self).wf(),
        ensures
            final(self).wf(),
            final(self).same_context(old(self)),
            final(self).next_id == old(self).next_id,
            final(self).entities@.len() == old(self).entities@.len(),
            forall|k: int|
                0 <= k < old(self).entities@.len() ==> #[trigger] final(self).entities@[k] == if old(self).entities@[k].id == old(self).player {
                    EntityRecord { wants_to_melee: Some(target), ..old(self).entities@[k] }
                } else {
                    old(self).entities@[k]
                },
    {
        match self.find(self.player) {
            Some(k) => {
                let e = self.entities[k];
                self.entities.set(k, EntityRecord { wants_to_melee: Some(target), ..e });
            },
            None => {},
        }
    }

    /// The player steps by `(dx, dy)`: into a tile that holds a living foe it
    /// attacks the first such occupant in the tile's list, into a walkable tile it moves, and
    /// otherwise nothing happens and input is awaited again.
    pub fn try_move_player(&mut self, dx: i32, dy: i32) -> (next: RunState)
        requires
            old(self).wf(),
        ensures
            final(self).wf(),
            final(self).player == old(self).player,
            final(self).map == old(self).map,
            final(self).log == old(self).log,
            final(self).run_state == old(self).run_state,
            final(self).next_id == old(self).next_id,
            next == RunState::AwaitingInput || next == RunState::PlayerTurn,
            next == RunState::AwaitingInput ==> final(self).entities == old(self).entities
                && final(self).player_pos == old(self).player_pos,
            ({
                let x = old(self).player_pos.x + dx;
                let y = old(self).player_pos.y + dy;
                let i = idx_of(old(self).map.width as int, x, y);
                &&& !old(self).map.in_bounds(x, y) ==> next == RunState::AwaitingInput
                &&& old(self).map.in_bounds(x, y) ==> {
                    let occupants = old(self).map.tile_content@[i]@;
                    let foe_here = exists|m: int|
                        0 <= m < occupants.len() && is_foe(
                            old(self).entities@,
                            old(self).player,
                            #[trigger] occupants[m],
                        );
                    let walkable = is_open(old(self).map.tiles@[i]) && old(self).map.status@[i]
                        & BLOCKED == 0;
                    &&& foe_here ==> next == RunState::PlayerTurn
                        && final(self).player_pos == old(self).player_pos && exists|m: int|
                        0 <= m < occupants.len() && is_foe(
                            old(self).entities@,
                            old(self).player,
                            #[trigger] occupants[m],
                        ) && (forall|q: int|
                            0 <= q < m ==> !is_foe(
                                old(self).entities@,
                                old(self).player,
                                #[trigger] occupants[q],
                            )) && aimed(
                            old(self).entities@,
                            final(self).entities@,
                            old(self).player,
                            occupants[m],
                        )
                    &&& !foe_here && walkable ==> next == RunState::PlayerTurn
                        && final(self).player_pos == (Position { x: x as i32, y: y as i32 })
                        && final(self).entities@.len() == old(self).entities@.len() && forall|k: int|
                        0 <= k < old(self).entities@.len() ==> #[trigger] final(self).entities@[k]
                            == if old(self).entities@[k].id == old(self).player {
                            moved_to(old(self).entities@[k], final(self).player_pos)
                        } else {
                            old(self).entities@[k]
                        }
                    &&& !foe_here && !walkable ==> next == RunState::AwaitingInput
                }
            }),
    {
        let x = self.player_pos.x as i64 + dx as i64;
        let y = self.player_pos.y as i64 + dy as i64;
        if x < 0 || x >= self.map.width as i64 || y < 0 || y >= self.map.height as i64 {
            return RunState::AwaitingInput;
        }
        let idx = self.map.xy_idx(x as i32, y as i32);
        let ghost occupants = self.map.tile_content@[idx as int]@;
        let len = self.map.tile_content[idx].len();
        let mut m: usize = 0;
        while m < len
            invariant
                self.wf(),
                self == old(self),
                idx < self.map.size(),
                idx == idx_of(self.map.width as int, old(self).player_pos.x + dx, old(self).player_pos.y + dy),
                self.map.in_bounds(old(self).player_pos.x + dx, old(self).player_pos.y + dy),
                occupants == self.map.tile_content@[idx as int]@,
                len == occupants.len(),
                m <= len,
                forall|q: int| 0 <= q < m ==> !is_foe(self.entities@, self.player, #[trigger] occupants[q]),
            decreases len - m,
        {
            let id = self.map.tile_content[idx][m];
            if self.foe_index(id).is_some() {
                proof {
                    assert(occupants[m as int] == id);
                    assert(is_foe(old(self).entities@, old(self).player, occupants[m as int]));
                }
                self.aim_at(id);
                proof {
                    assert(aimed(old(self).entities@, self.entities@, old(self).player, occupants[m as int]));
                }
                return RunState::PlayerTurn;
            }
            m = m + 1;
        }
        if self.map.is_walkable(idx) {
            self.relocate_player(Position { x: x as i32, y: y as i32 });
            RunState::PlayerTurn
        } else {
            RunState::AwaitingInput
        }
    }

    /// The player means to pick up the first item lying where it stands; with
    /// none there, input is awaited again.
    pub fn try_pickup(&mut self) -> (next: RunState)
        requires
            old(self).wf(),
        ensures
            final(self).wf(),
            final(self).same_context(old(self)),
            final(self).next_id == old(self).next_id,
            final(self).entities@.len() == old(self).entities@.len(),
            (next == RunState::PlayerTurn) == exists|k: int|
                is_first_item_at(old(self).entities@, old(self).player_pos, k),
            next == RunState::AwaitingInput ==> final(self).entities == old(self).entities,
            next == RunState::PlayerTurn ==> exists|k: int|
                is_first_item_at(old(self).entities@, old(self).player_pos, k) && forall|j: int|
                    0 <= j < old(self).entities@.len() ==> #[trigger] final(self).entities@[j]
                        == if old(self).entities@[j].id == old(self).player {
                        EntityRecord {
                            wants_to_pickup: Some(old(self).entities@[k].id),
                            ..old(self).entities@[j]
                        }
                    } else {
                        old(self).entities@[j]
                    },
            next == RunState::AwaitingInput || next == RunState::PlayerTurn,
    {
        let pos = self.player_pos;
        let mut k: usize = 0;
        while k < self.entities.len()
            invariant
                self.wf(),
                self == old(self),
                pos == self.player_pos,
                k <= self.entities@.len(),
                forall|j: int| 0 <= j < k ==> !((#[trigger] self.entities@[j]).item && self.entities@[j].position == Some(pos)),
            decreases self.entities@.len() - k,
        {
            let e = self.entities[k];
            let here = match e.position {
                Some(p) => p == pos,
                None => false,
            };
            if e.item && here {
                let item = e.id;
                proof {
                    assert(is_first_item_at(self.entities@, pos, k as int));
                }
                match self.find(self.player) {
                    Some(p) => {
                        let pe = self.entities[p];
                        self.entities.set(p, EntityRecord { wants_to_pickup: Some(item), ..pe });
                    },
                    None => {},
                }
                return RunState::PlayerTurn;
            }
            k = k + 1;
        }
        proof {
            assert forall|j: int| !is_first_item_at(old(self).entities@, pos, j) by {
                if 0 <= j < old(self).entities@.len() {
                    assert(!(old(self).entities@[j].item && old(self).entities@[j].position == Some(pos)));
                }
            }
        }
        RunState::AwaitingInput
    }

    /// Standing on the stairs down, the player descends; elsewhere input is
    /// awaited again.
    pub fn try_descend(&self) -> (next: RunState)
        requires
            self.wf(),
        ensures
            next == if self.map.in_bounds(self.player_pos.x as int, self.player_pos.y as int)
                && self.map.tiles@[idx_of(
                self.map.width as int,
                self.player_pos.x as int,
                self.player_pos.y as int,
            )] == TileKind::DownStairs {
                RunState::NextLevel
            } else {
                RunState::AwaitingInput
            },
    {
        let p = self.player_pos;
        if 0 <= p.x && p.x < self.map.width && 0 <= p.y && p.y < self.map.height {
            let idx = self.map.xy_idx(p.x, p.y);
            match self.map.tiles[idx] {
                TileKind::DownStairs => RunState::NextLevel,
                _ => RunState::AwaitingInput,
            }
        } else {
            RunState::AwaitingInput
        }
    }
}

} // verus!
