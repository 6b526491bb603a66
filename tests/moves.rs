use hanoi::game::{HanoiError, Move, NextStep};
use hanoi::peg::{odd_peg_out, Disk, Peg};
use hanoi::state::State;

fn sizes(state: &State, peg: Peg) -> Vec<u8> {
    state.get_tower(peg).iter().map(|d| d.0).collect()
}

fn snapshot(state: &State) -> (Vec<u8>, Vec<u8>, Vec<u8>) {
    (sizes(state, Peg::Left), sizes(state, Peg::Center), sizes(state, Peg::Right))
}

#[test]
fn new_puts_all_disks_on_left() {
    let state = State::new(3);
    assert_eq!(snapshot(&state), (vec![3, 2, 1], vec![], vec![]));
    assert!(!state.done());
}

#[test]
fn three_disk_scenario() {
    let mut state = State::new(3);
    assert_eq!(state.do_move(Move::new(Peg::Left, Peg::Right)), Ok(NextStep::Continue));
    assert_eq!(snapshot(&state), (vec![3, 2], vec![], vec![1]));
    assert_eq!(state.do_move(Move::new(Peg::Left, Peg::Center)), Ok(NextStep::Continue));
    assert_eq!(snapshot(&state), (vec![3], vec![2], vec![1]));
    assert_eq!(state.do_move(Move::new(Peg::Right, Peg::Center)), Ok(NextStep::Continue));
    assert_eq!(snapshot(&state), (vec![3], vec![2, 1], vec![]));
    let before = snapshot(&state);
    assert_eq!(
        state.do_move(Move::new(Peg::Left, Peg::Center)),
        Err(HanoiError::UnstableStack(Peg::Center, Disk(3)))
    );
    assert_eq!(snapshot(&state), before);
}

#[test]
fn move_from_empty_peg_fails() {
    let mut state = State::new(3);
    let before = snapshot(&state);
    assert_eq!(
        state.do_move(Move::new(Peg::Center, Peg::Right)),
        Err(HanoiError::EmptyFrom(Peg::Center))
    );
    assert_eq!(snapshot(&state), before);
}

#[test]
fn failed_moves_change_nothing() {
    let mut state = State::new(4);
    state.do_move(Move::new(Peg::Left, Peg::Center)).unwrap();
    state.do_move(Move::new(Peg::Left, Peg::Right)).unwrap();
    let before = snapshot(&state);
    let pegs = [Peg::Left, Peg::Center, Peg::Right];
    for from in pegs {
        for to in pegs {
            let mut copy = State::new(4);
            copy.do_move(Move::new(Peg::Left, Peg::Center)).unwrap();
            copy.do_move(Move::new(Peg::Left, Peg::Right)).unwrap();
            if copy.do_move(Move::new(from, to)).is_err() {
                assert_eq!(snapshot(&copy), before);
            }
        }
    }
    assert_eq!(
        state.do_move(Move::new(Peg::Left, Peg::Right)),
        Err(HanoiError::UnstableStack(Peg::Right, Disk(3)))
    );
    assert_eq!(snapshot(&state), before);
}

#[test]
fn moving_onto_same_peg_keeps_the_tower() {
    let mut state = State::new(2);
    assert_eq!(state.do_move(Move::new(Peg::Left, Peg::Left)), Ok(NextStep::Continue));
    assert_eq!(snapshot(&state), (vec![2, 1], vec![], vec![]));
}

#[test]
fn winning_move_reports_win() {
    let mut state = State::new(2);
    assert_eq!(state.do_move(Move::new(Peg::Left, Peg::Center)), Ok(NextStep::Continue));
    assert_eq!(state.do_move(Move::new(Peg::Left, Peg::Right)), Ok(NextStep::Continue));
    assert!(!state.done());
    assert_eq!(state.do_move(Move::new(Peg::Center, Peg::Right)), Ok(NextStep::Win));
    assert!(state.done());
    assert_eq!(snapshot(&state), (vec![], vec![], vec![2, 1]));
}

#[test]
fn solved_on_center_counts() {
    let mut state = State::new(1);
    assert!(!state.done());
    assert_eq!(state.do_move(Move::new(Peg::Left, Peg::Center)), Ok(NextStep::Win));
    assert!(state.done());
}

#[test]
fn split_disks_are_not_solved() {
    let mut state = State::new(2);
    state.do_move(Move::new(Peg::Left, Peg::Center)).unwrap();
    state.do_move(Move::new(Peg::Left, Peg::Right)).unwrap();
    assert_eq!(snapshot(&state), (vec![], vec![1], vec![2]));
    assert!(!state.done());
}

#[test]
fn push_pop_peek() {
    let mut state = State::new(2);
    assert_eq!(state.peek_disk(Peg::Left), Some(Disk(1)));
    assert_eq!(state.peek_disk(Peg::Right), None);
    assert_eq!(state.pop_disk(Peg::Right), None);
    assert_eq!(state.pop_disk(Peg::Left), Some(Disk(1)));
    assert_eq!(snapshot(&state), (vec![2], vec![], vec![]));
    assert_eq!(
        state.push_disk(Peg::Left, Disk(2)),
        Err(HanoiError::UnstableStack(Peg::Left, Disk(2)))
    );
    assert_eq!(
        state.push_disk(Peg::Left, Disk(3)),
        Err(HanoiError::UnstableStack(Peg::Left, Disk(3)))
    );
    assert_eq!(state.push_disk(Peg::Right, Disk(1)), Ok(()));
    assert_eq!(snapshot(&state), (vec![2], vec![], vec![1]));
}

#[test]
fn tower_mut_gives_access() {
    let mut state = State::new(2);
    state.get_tower_mut(Peg::Center).push(Disk(7));
    assert_eq!(snapshot(&state), (vec![2, 1], vec![7], vec![]));
}

#[test]
fn odd_peg_out_is_the_third() {
    assert_eq!(odd_peg_out(Peg::Left, Peg::Center), Peg::Right);
    assert_eq!(odd_peg_out(Peg::Center, Peg::Left), Peg::Right);
    assert_eq!(odd_peg_out(Peg::Left, Peg::Right), Peg::Center);
    assert_eq!(odd_peg_out(Peg::Right, Peg::Left), Peg::Center);
    assert_eq!(odd_peg_out(Peg::Center, Peg::Right), Peg::Left);
    assert_eq!(odd_peg_out(Peg::Right, Peg::Center), Peg::Left);
}

#[test]
fn move_new_keeps_pegs() {
    let m = Move::new(Peg::Right, Peg::Left);
    assert_eq!(m.from, Peg::Right);
    assert_eq!(m.to, Peg::Left);
}

#[test]
fn largest_and_find() {
    let mut state = State::new(5);
    state.do_move(Move::new(Peg::Left, Peg::Right)).unwrap();
    state.do_move(Move::new(Peg::Left, Peg::Center)).unwrap();
    assert_eq!(state.largest_disk(), 5);
    assert_eq!(state.find_disk(1), Peg::Right);
    assert_eq!(state.find_disk(2), Peg::Center);
    assert_eq!(state.find_disk(5), Peg::Left);
}

#[test]
fn largest_disk_of_255() {
    let state = State::new(255);
    assert_eq!(state.largest_disk(), 255);
    assert_eq!(state.get_tower(Peg::Left).len(), 255);
}
