use vstd::prelude::*;
use crate::peg::{Disk, Peg};
use crate::render::{decimal, push_decimal};

verus! {

/// A move operation from one peg to another. The move may not actually be
/// allowed: legality is decided against a state when the move is applied.
#[derive(PartialEq, Eq, Structural, Clone, Copy, Debug)]
pub struct Move {
    pub from: Peg,
    pub to: Peg,
}

impl Move {
    pub fn new(from: Peg, to: Peg) -> (r: Move)
        ensures
            r.from == from,
            r.to == to,
    {
        Move { from, to }
    }
}

/// An action entered by the user.
#[derive(PartialEq, Eq, Structural, Clone, Copy, Debug)]
pub enum Action {
    /// Do this move.
    Move(Move),
    /// Let the solver make the next move.
    Auto,
    /// Quit the game.
    Quit,
}

/// The next step the game should take after an instruction is processed.
#[derive(PartialEq, Eq, Structural, Clone, Copy, Debug)]
pub enum NextStep {
    /// Quit the game.
    Quit,
    /// The puzzle is solved.
    Win,
    /// Get another action.
    Continue,
}

/// An error that might arise while processing an instruction. None of them is
/// fatal, and none leaves a partial change behind.
#[derive(PartialEq, Eq, Structural, Clone, Copy, Debug)]
pub enum HanoiError {
    UnknownCommand,
    /// The disk cannot go on the peg because it is not smaller than the peg's top disk.
    UnstableStack(Peg, Disk),
    /// Nothing can be moved from the peg because it is empty.
    EmptyFrom(Peg),
    /// The automatic solver was asked for a move on a solved puzzle.
    AlreadyDone,
}

/// The peg named by a command letter: `l`, `c` or `r`.
pub open spec fn peg_of_letter(c: char) -> Option<Peg> {
    if c == 'l' {
        Some(Peg::Left)
    } else if c == 'c' {
        Some(Peg::Center)
    } else if c == 'r' {
        Some(Peg::Right)
    } else {
        None
    }
}

/// What a command line means: `q` quits, `a` asks the solver for a move, and
/// two peg letters `PQ` move the top disk of `P` onto `Q`. Anything else is
/// unknown.
pub open spec fn command(s: Seq<char>) -> Result<Action, HanoiError> {
    if s == seq!['q'] {
        Ok(Action::Quit)
    } else if s == seq!['a'] {
        Ok(Action::Auto)
    } else if s.len() == 2 && peg_of_letter(s[0]) is Some && peg_of_letter(s[1]) is Some {
        Ok(
            Action::Move(
                Move { from: peg_of_letter(s[0])->Some_0, to: peg_of_letter(s[1])->Some_0 },
            ),
        )
    } else {
        Err(HanoiError::UnknownCommand)
    }
}

fn letter_peg(c: char) -> (r: Option<Peg>)
    ensures
        r == peg_of_letter(c),
{
    if c == 'l' {
        Some(Peg::Left)
    } else if c == 'c' {
        Some(Peg::Center)
    } else if c == 'r' {
        Some(Peg::Right)
    } else {
        None
    }
}

/// Parses a command into an action.
///
/// Accepted commands:
///    * `q`: quit
///    * `a`: let the solver make the next move
///    * `PQ`: move the top disk from `P` onto `Q`, where `P` and `Q` are
///      among `l`, `c` and `r`
///
/// Anything else gives `UnknownCommand`.
pub fn parse_action(input: &str) -> (r: Result<Action, HanoiError>)
    ensures
        r == command(input@),
{
    let len = input.unicode_len();
    if len == 1 {
        let c = input.get_char(0);
        if c == 'q' {
            assert(input@ =~= seq!['q']);
            return Ok(Action::Quit);
        }
        if c == 'a' {
            assert(input@ =~= seq!['a']);
            return Ok(Action::Auto);
        }
        return Err(HanoiError::UnknownCommand);
    }
    if len == 2 {
        match (letter_peg(input.get_char(0)), letter_peg(input.get_char(1))) {
            (Some(from), Some(to)) => {
                return Ok(Action::Move(Move::new(from, to)));
            },
            _ => {},
        }
    }
    Err(HanoiError::UnknownCommand)
}

/// The plain name of a peg.
pub open spec fn peg_name(p: Peg) -> Seq<char> {
    match p {
        Peg::Left => "Left"@,
        Peg::Center => "Center"@,
        Peg::Right => "Right"@,
    }
}

/// The message that explains an error.
pub open spec fn message(e: HanoiError) -> Seq<char> {
    match e {
        HanoiError::UnknownCommand => "Unknown Command"@,
        HanoiError::UnstableStack(peg, disk) => "Disk "@ + decimal(disk.0 as nat)
            + " cannot go on the "@ + peg_name(peg) + " peg: its top disk is smaller"@,
        HanoiError::EmptyFrom(peg) => "Cannot move from the "@ + peg_name(peg)
            + " peg: it is empty"@,
        HanoiError::AlreadyDone => "The puzzle is already solved"@,
    }
}

fn name_of(p: Peg) -> (r: &'static str)
    ensures
        r@ == peg_name(p),
{
    match p {
        Peg::Left => "Left",
        Peg::Center => "Center",
        Peg::Right => "Right",
    }
}

impl HanoiError {
    /// A sentence that explains the error to the player.
    pub fn description(&self) -> (r: String)
        ensures
            r@ == message(*self),
    {
        match *self {
            HanoiError::UnknownCommand => String::from_str("Unknown Command"),
            HanoiError::UnstableStack(peg, Disk(size)) => {
                let mut text = String::from_str("Disk ");
                push_decimal(&mut text, size);
                text.append(" cannot go on the ");
                text.append(name_of(peg));
                text.append(" peg: its top disk is smaller");
                text
            },
            HanoiError::EmptyFrom(peg) => {
                let mut text = String::from_str("Cannot move from the ");
                text.append(name_of(peg));
                text.append(" peg: it is empty");
                text
            },
            HanoiError::AlreadyDone => String::from_str("The puzzle is already solved"),
        }
    }
}

} // verus!
