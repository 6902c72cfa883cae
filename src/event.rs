use vstd::prelude::*;

use crate::board::Direction;

verus! {

/// An event delivered to an interactive session.
pub enum Event<I> {
    Input(I),
}

/// What a key asks of a session.
#[derive(Clone, Copy, Debug, PartialEq, Eq, Structural)]
pub enum Command {
    Move(Direction),
    Quit,
}

/// The command bound to `key`: `h`, `j`, `k`, `l` move left, down, up and right,
/// `q` quits, and every other key is ignored.
pub fn command_for_key(key: char) -> (r: Option<Command>)
    ensures
        r == match key {
            'h' => Some(Command::Move(Direction::Left)),
            'j' => Some(Command::Move(Direction::Down)),
            'k' => Some(Command::Move(Direction::Up)),
            'l' => Some(Command::Move(Direction::Right)),
            'q' => Some(Command::Quit),
            _ => None,
        },
{
    match key {
        'h' => Some(Command::Move(Direction::Left)),
        'j' => Some(Command::Move(Direction::Down)),
        'k' => Some(Command::Move(Direction::Up)),
        'l' => Some(Command::Move(Direction::Right)),
        'q' => Some(Command::Quit),
        _ => None,
    }
}

} // verus!
