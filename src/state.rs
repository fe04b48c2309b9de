//! The scheduler's run state, the collaborators' answers, and the
//! transition table between them.

use vstd::prelude::*;

verus! {

/// A grid position.
#[derive(PartialEq, Eq, Structural, Clone, Copy, Debug)]
pub struct Position {
    pub x: i32,
    pub y: i32,
}

#[derive(PartialEq, Eq, Structural, Clone, Copy, Debug)]
pub enum MainMenuSelection {
    NewGame,
    LoadGame,
    Quit,
}

/// The scheduler's control value.
#[derive(PartialEq, Eq, Structural, Clone, Copy, Debug)]
pub enum RunState {
    AwaitingInput,
    GameOver,
    MainMenu(MainMenuSelection),
    MonsterTurn,
    NextLevel,
    PlayerTurn,
    PreRun,
    SaveGame,
    ShowDropItem,
    ShowInventory,
    ShowRemoveItem,
    /// Choosing a target within a range for an item.
    ShowTargeting(i32, u64),
}

#[derive(PartialEq, Eq, Structural, Clone, Copy, Debug)]
pub enum MainMenuResult {
    NoSelection(MainMenuSelection),
    Selection(MainMenuSelection),
}

#[derive(PartialEq, Eq, Structural, Clone, Copy, Debug)]
pub enum ItemMenuResult {
    Cancel,
    NoResponse,
    Selected(u64),
}

#[derive(PartialEq, Eq, Structural, Clone, Copy, Debug)]
pub enum TargetResult {
    Cancel,
    NoResponse,
    Selected(Position),
}

#[derive(PartialEq, Eq, Structural, Clone, Copy, Debug)]
pub enum GameOverResult {
    NoSelection,
    QuitToMenu,
}

/// What the input or menu collaborator answered during one tick.
#[derive(PartialEq, Eq, Structural, Clone, Copy, Debug)]
pub enum Event {
    /// No collaborator was asked.
    Idle,
    /// The state that input handling chose.
    Input(RunState),
    ItemMenu(ItemMenuResult),
    Target(TargetResult),
    MainMenu(MainMenuResult),
    GameOver(GameOverResult),
}

/// What a tick does besides moving to its next state.
#[derive(PartialEq, Eq, Structural, Clone, Copy, Debug)]
pub enum Action {
    Nothing,
    /// Run the whole system pipeline once.
    RunSystems,
    /// Write the save.
    Save,
    /// Read the save, if there is one, and load it.
    Load,
    /// Advance to the next level.
    AdvanceLevel,
    /// Reset the world for a new game.
    ResetWorld,
    /// Record the player's intent to use an item, maybe at a target.
    UseItem(u64, Option<Position>),
    DropItem(u64),
    RemoveItem(u64),
    Quit,
}

/// States that input handling may hand over to.
pub open spec fn input_may_choose(s: RunState) -> bool {
    match s {
        RunState::PlayerTurn | RunState::ShowInventory | RunState::ShowDropItem
        | RunState::ShowRemoveItem | RunState::SaveGame | RunState::AwaitingInput
        | RunState::NextLevel => true,
        _ => false,
    }
}

/// The transition table: the next state and the action for a state and an
/// event. `ranged` is the range of the item picked in the inventory, if it
/// needs a target.
pub open spec fn step_spec(state: RunState, event: Event, ranged: Option<i32>) -> (RunState, Action) {
    match state {
        RunState::PreRun => (RunState::AwaitingInput, Action::RunSystems),
        RunState::AwaitingInput => match event {
            Event::Input(s) => if input_may_choose(s) {
                (s, Action::Nothing)
            } else {
                (RunState::AwaitingInput, Action::Nothing)
            },
            _ => (RunState::AwaitingInput, Action::Nothing),
        },
        RunState::PlayerTurn => (RunState::MonsterTurn, Action::RunSystems),
        RunState::MonsterTurn => (RunState::AwaitingInput, Action::RunSystems),
        RunState::SaveGame => (RunState::MainMenu(MainMenuSelection::LoadGame), Action::Save),
        RunState::NextLevel => (RunState::PreRun, Action::AdvanceLevel),
        RunState::ShowInventory => match event {
            Event::ItemMenu(ItemMenuResult::Selected(item)) => match ranged {
                Some(range) => (RunState::ShowTargeting(range, item), Action::Nothing),
                None => (RunState::PlayerTurn, Action::UseItem(item, None)),
            },
            Event::ItemMenu(ItemMenuResult::Cancel) => (RunState::AwaitingInput, Action::Nothing),
            _ => (state, Action::Nothing),
        },
        RunState::ShowDropItem => match event {
            Event::ItemMenu(ItemMenuResult::Selected(item)) => (
                RunState::PlayerTurn,
                Action::DropItem(item),
            ),
            Event::ItemMenu(ItemMenuResult::Cancel) => (RunState::AwaitingInput, Action::Nothing),
            _ => (state, Action::Nothing),
        },
        RunState::ShowRemoveItem => match event {
            Event::ItemMenu(ItemMenuResult::Selected(item)) => (
                RunState::PlayerTurn,
                Action::RemoveItem(item),
            ),
            Event::ItemMenu(ItemMenuResult::Cancel) => (RunState::AwaitingInput, Action::Nothing),
            _ => (state, Action::Nothing),
        },
        RunState::ShowTargeting(_, item) => match event {
            Event::Target(TargetResult::Selected(target)) => (
                RunState::PlayerTurn,
                Action::UseItem(item, Some(target)),
            ),
            Event::Target(TargetResult::Cancel) => (RunState::AwaitingInput, Action::Nothing),
            _ => (state, Action::Nothing),
        },
        RunState::MainMenu(_) => match event {
            Event::MainMenu(MainMenuResult::NoSelection(option)) => (
                RunState::MainMenu(option),
                Action::Nothing,
            ),
            Event::MainMenu(MainMenuResult::Selection(MainMenuSelection::NewGame)) => (
                RunState::PreRun,
                Action::ResetWorld,
            ),
            Event::MainMenu(MainMenuResult::Selection(MainMenuSelection::LoadGame)) => (
                RunState::MainMenu(MainMenuSelection::LoadGame),
                Action::Load,
            ),
            Event::MainMenu(MainMenuResult::Selection(MainMenuSelection::Quit)) => (
                state,
                Action::Quit,
            ),
            _ => (state, Action::Nothing),
        },
        RunState::GameOver => match event {
            Event::GameOver(GameOverResult::QuitToMenu) => (
                RunState::MainMenu(MainMenuSelection::NewGame),
                Action::ResetWorld,
            ),
            _ => (state, Action::Nothing),
        },
    }
}

/// One step of the scheduler's transition table.
pub fn step(state: RunState, event: Event, ranged: Option<i32>) -> (r: (RunState, Action))
    ensures
        r == step_spec(state, event, ranged),
{
    match state {
        RunState::PreRun => (RunState::AwaitingInput, Action::RunSystems),
        RunState::AwaitingInput => match event {
            Event::Input(s) => {
                let allowed = match s {
                    RunState::PlayerTurn | RunState::ShowInventory | RunState::ShowDropItem
                    | RunState::ShowRemoveItem | RunState::SaveGame | RunState::AwaitingInput
                    | RunState::NextLevel => true,
                    _ => false,
                };
                if allowed {
                    (s, Action::Nothing)
                } else {
                    (RunState::AwaitingInput, Action::Nothing)
                }
            },
            _ => (RunState::AwaitingInput, Action::Nothing),
        },
        RunState::PlayerTurn => (RunState::MonsterTurn, Action::RunSystems),
        RunState::MonsterTurn => (RunState::AwaitingInput, Action::RunSystems),
        RunState::SaveGame => (RunState::MainMenu(MainMenuSelection::LoadGame), Action::Save),
        RunState::NextLevel => (RunState::PreRun, Action::AdvanceLevel),
        RunState::ShowInventory => match event {
            Event::ItemMenu(ItemMenuResult::Selected(item)) => match ranged {
                Some(range) => (RunState::ShowTargeting(range, item), Action::Nothing),
                None => (RunState::PlayerTurn, Action::UseItem(item, None)),
            },
            Event::ItemMenu(ItemMenuResult::Cancel) => (RunState::AwaitingInput, Action::Nothing),
            _ => (state, Action::Nothing),
        },
        RunState::ShowDropItem => match event {
            Event::ItemMenu(ItemMenuResult::Selected(item)) => (
                RunState::PlayerTurn,
                Action::DropItem(item),
            ),
            Event::ItemMenu(ItemMenuResult::Cancel) => (RunState::AwaitingInput, Action::Nothing),
            _ => (state, Action::Nothing),
        },
        RunState::ShowRemoveItem => match event {
            Event::ItemMenu(ItemMenuResult::Selected(item)) => (
                RunState::PlayerTurn,
                Action::RemoveItem(item),
            ),
            Event::ItemMenu(ItemMenuResult::Cancel) => (RunState::AwaitingInput, Action::Nothing),
            _ => (state, Action::Nothing),
        },
        RunState::ShowTargeting(_, item) => match event {
            Event::Target(TargetResult::Selected(target)) => (
                RunState::PlayerTurn,
                Action::UseItem(item, Some(target)),
            ),
            Event::Target(TargetResult::Cancel) => (RunState::AwaitingInput, Action::Nothing),
            _ => (state, Action::Nothing),
        },
        RunState::MainMenu(_) => match event {
            Event::MainMenu(MainMenuResult::NoSelection(option)) => (
                RunState::MainMenu(option),
                Action::Nothing,
            ),
            Event::MainMenu(MainMenuResult::Selection(MainMenuSelection::NewGame)) => (
                RunState::PreRun,
                Action::ResetWorld,
            ),
            Event::MainMenu(MainMenuResult::Selection(MainMenuSelection::LoadGame)) => (
                RunState::MainMenu(MainMenuSelection::LoadGame),
                Action::Load,
            ),
            Event::MainMenu(MainMenuResult::Selection(MainMenuSelection::Quit)) => (
                state,
                Action::Quit,
            ),
            _ => (state, Action::Nothing),
        },
        RunState::GameOver => match event {
            Event::GameOver(GameOverResult::QuitToMenu) => (
                RunState::MainMenu(MainMenuSelection::NewGame),
                Action::ResetWorld,
            ),
            _ => (state, Action::Nothing),
        },
    }
}

/// Where a load attempt leaves the scheduler: in the game when a save was
/// loaded, on the menu's load option otherwise.
pub fn after_load(loaded: bool) -> (r: RunState)
    ensures
        r == if loaded {
            RunState::AwaitingInput
        } else {
            RunState::MainMenu(MainMenuSelection::LoadGame)
        },
{
    if loaded {
        RunState::AwaitingInput
    } else {
        RunState::MainMenu(MainMenuSelection::LoadGame)
    }
}

} // verus!
