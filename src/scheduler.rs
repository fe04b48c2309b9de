//! One tick of the scheduler: the transition table applied to the world.

use crate::grid::MAX_TILES;
use crate::state::{step, step_spec, Action, Event, ItemMenuResult, RunState};
use crate::systems::pipeline_ran;
use crate::world::{descended, reset_world, EcsWorld, EntityRecord, UseIntent, ID_LIMIT, MAP_HEIGHT, MAP_WIDTH};
use rltk::RandomNumberGenerator;
use vstd::prelude::*;

verus! {

/// The range of the item that an inventory pick names, if it needs a target.
pub open spec fn ranged_pick(es: Seq<EntityRecord>, event: Event) -> Option<i32> {
    match event {
        Event::ItemMenu(ItemMenuResult::Selected(item)) => {
            if exists|k: int| 0 <= k < es.len() && (#[trigger] es[k]).id == item {
                es[choose|k: int| 0 <= k < es.len() && (#[trigger] es[k]).id == item].ranged
            } else {
                None
            }
        },
        _ => None,
    }
}

/// What is left for the caller to do after a tick: the actions that reach
/// outside the simulation.
pub open spec fn outside_part(a: Action) -> Action {
    match a {
        Action::Save | Action::Load | Action::Quit => a,
        _ => Action::Nothing,
    }
}

/// `e` with an intent recorded.
pub open spec fn with_intent(e: EntityRecord, a: Action) -> EntityRecord {
    match a {
        Action::UseItem(item, target) => EntityRecord {
            wants_to_use: Some(UseIntent { item, target }),
            ..e
        },
        Action::DropItem(item) => EntityRecord { wants_to_drop: Some(item), ..e },
        Action::RemoveItem(item) => EntityRecord { wants_to_remove: Some(item), ..e },
        _ => e,
    }
}

impl EcsWorld {
    /// Room left for fresh ids: a tick creates at most one level's worth.
    pub open spec fn ids_to_spare(&self) -> bool {
        self.next_id + MAX_TILES + 1 <= ID_LIMIT
    }

    /// Invariants that hold between ticks.
    pub open spec fn ready(&self) -> bool {
        &&& self.wf()
        &&& self.player < self.next_id
    }

    /// The range of `item` when it needs a target.
    pub fn ranged_of(&self, event: Event) -> (r: Option<i32>)
        requires
            self.wf(),
        ensures
            r == ranged_pick(self.entities@, event),
    {
        match event {
            Event::ItemMenu(ItemMenuResult::Selected(item)) => match self.find(item) {
                Some(k) => {
                    proof {
                        let j = choose|j: int|
                            0 <= j < self.entities@.len() && (#[trigger] self.entities@[j]).id == item;
                        assert(j == k);
                    }
                    self.entities[k].ranged
                },
                None => None,
            },
            _ => None,
        }
    }

    /// Records an intent on the player's record.
    fn record_intent(&mut self, a: Action)
        requires
            old(self).wf(),
        ensures
            final(self).wf(),
            final(self).same_context(old(self)),
            final(self).next_id == old(self).next_id,
            final(self).entities@.len() == old(self).entities@.len(),
            forall|k: int|
                0 <= k < old(self).entities@.len() ==> #[trigger] final(self).entities@[k] == if old(self).entities@[k].id == old(self).player {
                    with_intent(old(self).entities@[k], a)
                } else {
                    old(self).entities@[k]
                },
    {
        match self.find(self.player) {
            Some(k) => {
                let e = self.entities[k];
                let ne = match a {
                    Action::UseItem(item, target) => EntityRecord {
                        wants_to_use: Some(UseIntent { item, target }),
                        ..e
                    },
                    Action::DropItem(item) => EntityRecord { wants_to_drop: Some(item), ..e },
                    Action::RemoveItem(item) => EntityRecord { wants_to_remove: Some(item), ..e },
                    _ => e,
                };
                self.entities.set(k, ne);
            },
            None => {},
        }
    }

    /// One tick of the scheduler. The run state moves as the transition table
    /// says for the current state and `event`; the tick runs the pipeline,
    /// advances the level, resets the world or records the player's intent
    /// when the table asks, and hands back what is left to the caller:
    /// saving, loading or quitting. A player killed by the pipeline ends the
    /// game.
    pub fn tick(
        &mut self,
        rng: &mut RandomNumberGenerator,
        event: Event,
        cell_keys: &Vec<i32>,
    ) -> (outside: Action)
        requires
            old(self).ready(),
            old(self).ids_to_spare(),
            old(self).map.depth < i32::MAX,
            cell_keys@.len() == MAP_WIDTH * MAP_HEIGHT,
        ensures
            final(self).ready(),
            ({
                let (next, action) = step_spec(
                    old(self).run_state,
                    event,
                    ranged_pick(old(self).entities@, event),
                );
                &&& outside == outside_part(action)
                &&& action == Action::RunSystems ==> pipeline_ran(*old(self), *final(self), next)
                &&& action == Action::AdvanceLevel ==> descended(*old(self), *final(self))
                    && final(self).run_state == next
                &&& action == Action::ResetWorld ==> reset_world(*old(self), *final(self))
                    && final(self).run_state == next
                &&& (action == Action::Nothing || outside_part(action) == action) ==> {
                    &&& final(self).entities == old(self).entities
                    &&& final(self).map == old(self).map
                    &&& final(self).log == old(self).log
                    &&& final(self).player == old(self).player
                    &&& final(self).player_pos == old(self).player_pos
                    &&& final(self).next_id == old(self).next_id
                    &&& final(self).run_state == next
                }
                &&& (action is UseItem || action is DropItem || action is RemoveItem) ==> {
                    &&& final(self).map == old(self).map
                    &&& final(self).log == old(self).log
                    &&& final(self).player == old(self).player
                    &&& final(self).player_pos == old(self).player_pos
                    &&& final(self).run_state == next
                    &&& final(self).next_id == old(self).next_id
                    &&& final(self).entities@.len() == old(self).entities@.len()
                    &&& forall|k: int|
                        0 <= k < old(self).entities@.len() ==> #[trigger] final(self).entities@[k] == if old(self).entities@[k].id == old(self).player {
                            with_intent(old(self).entities@[k], action)
                        } else {
                            old(self).entities@[k]
                        }
                }
            }),
            final(self).next_id <= old(self).next_id + MAX_TILES + 1,
    {
        let ranged = self.ranged_of(event);
        let (next, action) = step(self.run_state, event, ranged);
        self.run_state = next;
        let outside = match action {
            Action::RunSystems => {
                self.run_systems();
                Action::Nothing
            },
            Action::AdvanceLevel => {
                let _ = self.goto_next_level(rng, cell_keys);
                Action::Nothing
            },
            Action::ResetWorld => {
                let _ = self.game_over_cleanup(rng, cell_keys);
                Action::Nothing
            },
            Action::UseItem(_, _) | Action::DropItem(_) | Action::RemoveItem(_) => {
                self.record_intent(action);
                Action::Nothing
            },
            _ => action,
        };
        outside
    }
}

} // verus!
