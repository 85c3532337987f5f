//! The keys with which a player steers.
use vstd::prelude::*;
use vstd::string::StringExecFns;
use crate::types::{Direction, GameMessage, GameState};

verus! {

/// The direction an arrow key names.
pub open spec fn key_direction(key: Seq<char>) -> Option<Direction> {
    if key == "ArrowUp"@ {
        Some(Direction::Up)
    } else if key == "ArrowDown"@ {
        Some(Direction::Down)
    } else if key == "ArrowLeft"@ {
        Some(Direction::Left)
    } else if key == "ArrowRight"@ {
        Some(Direction::Right)
    } else {
        None
    }
}

/// The game shown is under way.
pub open spec fn accepts_input(state: Option<GameState>) -> bool {
    match state {
        Some(s) => s.game_started && !s.game_over,
        None => false,
    }
}

/// What a key press sends to the server: while the game shown is under way, an arrow key asks
/// the player's snake to head that way; any other key, or a game not under way, sends nothing.
pub fn input_for_key(state: &Option<GameState>, key: &str) -> (r: Option<GameMessage>)
    ensures
        r == (if accepts_input(*state) && key_direction(key@) is Some {
            Some(GameMessage::PlayerInput(key_direction(key@)->0))
        } else {
            None
        }),
{
    let running = match state {
        Some(s) => s.game_started && !s.game_over,
        None => false,
    };
    if !running {
        return None;
    }
    let k = key.to_owned();
    if k.eq(&String::from_str("ArrowUp")) {
        Some(GameMessage::PlayerInput(Direction::Up))
    } else if k.eq(&String::from_str("ArrowDown")) {
        Some(GameMessage::PlayerInput(Direction::Down))
    } else if k.eq(&String::from_str("ArrowLeft")) {
        Some(GameMessage::PlayerInput(Direction::Left))
    } else if k.eq(&String::from_str("ArrowRight")) {
        Some(GameMessage::PlayerInput(Direction::Right))
    } else {
        None
    }
}

} // verus!
