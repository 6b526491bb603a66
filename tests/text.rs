use hanoi::game::{parse_action, Action, HanoiError, Move, NextStep};
use hanoi::peg::{Disk, Peg};
use hanoi::render::push_decimal;
use hanoi::state::State;

#[test]
fn parse_quit() {
    assert_eq!(parse_action("q"), Ok(Action::Quit));
}

#[test]
fn parse_auto() {
    assert_eq!(parse_action("a"), Ok(Action::Auto));
}

#[test]
fn parse_moves() {
    assert_eq!(parse_action("lr"), Ok(Action::Move(Move::new(Peg::Left, Peg::Right))));
    assert_eq!(parse_action("cl"), Ok(Action::Move(Move::new(Peg::Center, Peg::Left))));
    assert_eq!(parse_action("rc"), Ok(Action::Move(Move::new(Peg::Right, Peg::Center))));
    assert_eq!(parse_action("ll"), Ok(Action::Move(Move::new(Peg::Left, Peg::Left))));
}

#[test]
fn parse_unknown() {
    for input in ["", "x", "Q", "qq", "lx", "xl", "LR", "lrc", "l r", "é", "aa", "A"] {
        assert_eq!(parse_action(input), Err(HanoiError::UnknownCommand));
    }
}

#[test]
fn descriptions() {
    assert_eq!(HanoiError::UnknownCommand.description(), "Unknown Command");
    assert_eq!(
        HanoiError::UnstableStack(Peg::Center, Disk(3)).description(),
        "Disk 3 cannot go on the Center peg: its top disk is smaller"
    );
    assert_eq!(
        HanoiError::UnstableStack(Peg::Left, Disk(120)).description(),
        "Disk 120 cannot go on the Left peg: its top disk is smaller"
    );
    assert_eq!(
        HanoiError::EmptyFrom(Peg::Right).description(),
        "Cannot move from the Right peg: it is empty"
    );
    assert_eq!(HanoiError::AlreadyDone.description(), "The puzzle is already solved");
}

#[test]
fn decimal_text() {
    for (n, text) in [(0u8, "0"), (7, "7"), (10, "10"), (42, "42"), (100, "100"), (205, "205"), (255, "255")] {
        let mut s = String::from("x");
        push_decimal(&mut s, n);
        assert_eq!(s, format!("x{}", text));
    }
}

#[test]
fn print_lines() {
    let mut state = State::new(3);
    assert_eq!(state.print_peg(Peg::Left), "  Left: 3 2 1");
    assert_eq!(state.print_peg(Peg::Center), "Center: ");
    assert_eq!(state.do_move(Move::new(Peg::Left, Peg::Right)), Ok(NextStep::Continue));
    assert_eq!(state.print(), "  Left: 3 2\nCenter: \n Right: 1\n");
}

#[test]
fn print_large_disks() {
    let state = State::new(12);
    assert_eq!(state.print_peg(Peg::Left), "  Left: 12 11 10 9 8 7 6 5 4 3 2 1");
}
