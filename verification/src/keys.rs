use vstd::prelude::*;
use crate::menu::MenuAction;

verus! {

/// A key the player pressed, as far as the game tells keys apart.
#[derive(Debug, Clone, Copy, PartialEq, Eq, Structural)]
pub enum Key {
    Char(char),
    Enter,
    Left,
    Right,
    Up,
    Down,
    Other,
}

/// What a key press asks of the game.
#[derive(Debug, Clone, Copy, PartialEq, Eq, Structural)]
pub enum Action {
    MoveUp,
    MoveDown,
    MoveLeft,
    MoveRight,
    Reveal,
    Flag,
    Quit,
}

/// The game's keys: `d` reveals, `f` flags, `h j k l` and the arrows move,
/// `q` quits; other keys ask nothing.
pub open spec fn game_action_of(key: Key) -> Option<Action> {
    match key {
        Key::Char('d') => Some(Action::Reveal),
        Key::Char('f') => Some(Action::Flag),
        Key::Char('h') | Key::Left => Some(Action::MoveLeft),
        Key::Char('j') | Key::Down => Some(Action::MoveDown),
        Key::Char('k') | Key::Up => Some(Action::MoveUp),
        Key::Char('l') | Key::Right => Some(Action::MoveRight),
        Key::Char('q') => Some(Action::Quit),
        _ => None,
    }
}

/// The start menu's keys: `d` and Enter confirm, `h j k l` and the arrows
/// move, `q` quits; other keys ask nothing.
pub open spec fn menu_action_of(key: Key) -> Option<MenuAction> {
    match key {
        Key::Char('d') | Key::Enter => Some(MenuAction::Confirm),
        Key::Char('h') | Key::Left => Some(MenuAction::MoveLeft),
        Key::Char('j') | Key::Down => Some(MenuAction::MoveDown),
        Key::Char('k') | Key::Up => Some(MenuAction::MoveUp),
        Key::Char('l') | Key::Right => Some(MenuAction::MoveRight),
        Key::Char('q') => Some(MenuAction::Quit),
        _ => None,
    }
}

/// What a key press asks of the game, if anything.
pub fn game_action(key: Key) -> (action: Option<Action>)
    ensures
        action == game_action_of(key),
{
    match key {
        Key::Char('d') => Some(Action::Reveal),
        Key::Char('f') => Some(Action::Flag),
        Key::Char('h') | Key::Left => Some(Action::MoveLeft),
        Key::Char('j') | Key::Down => Some(Action::MoveDown),
        Key::Char('k') | Key::Up => Some(Action::MoveUp),
        Key::Char('l') | Key::Right => Some(Action::MoveRight),
        Key::Char('q') => Some(Action::Quit),
        _ => None,
    }
}

/// What a key press asks of the start menu, if anything.
pub fn menu_action(key: Key) -> (action: Option<MenuAction>)
    ensures
        action == menu_action_of(key),
{
    match key {
        Key::Char('d') | Key::Enter => Some(MenuAction::Confirm),
        Key::Char('h') | Key::Left => Some(MenuAction::MoveLeft),
        Key::Char('j') | Key::Down => Some(MenuAction::MoveDown),
        Key::Char('k') | Key::Up => Some(MenuAction::MoveUp),
        Key::Char('l') | Key::Right => Some(MenuAction::MoveRight),
        Key::Char('q') => Some(MenuAction::Quit),
        _ => None,
    }
}

} // verus!
