use hanoi::game::{HanoiError, Move, NextStep};
use hanoi::peg::Peg;
use hanoi::state::State;

fn sizes(state: &State, peg: Peg) -> Vec<u8> {
    state.get_tower(peg).iter().map(|d| d.0).collect()
}

fn assert_legal(state: &State, n: u8) {
    let mut seen = vec![false; n as usize + 1];
    for peg in [Peg::Left, Peg::Center, Peg::Right] {
        let tower = sizes(state, peg);
        for pair in tower.windows(2) {
            assert!(pair[0] > pair[1]);
        }
        for d in tower {
            assert!(d >= 1 && d <= n);
            assert!(!seen[d as usize]);
            seen[d as usize] = true;
        }
    }
    assert!(seen[1..].iter().all(|&s| s));
}

fn solve(state: &mut State, n: u8) -> u64 {
    let mut steps: u64 = 0;
    loop {
        let r = state.auto_step();
        steps += 1;
        assert_legal(state, n);
        match r {
            Ok(NextStep::Win) => return steps,
            Ok(NextStep::Continue) => assert!(!state.done()),
            other => panic!("unexpected outcome {:?}", other),
        }
        assert!(steps < 1 << 20);
    }
}

#[test]
fn single_disk_wins_at_once() {
    let mut state = State::new(1);
    assert_eq!(state.auto_step(), Ok(NextStep::Win));
    assert_eq!(sizes(&state, Peg::Right), vec![1]);
}

#[test]
fn auto_solves_in_minimal_moves() {
    for n in 1..=10u8 {
        let mut state = State::new(n);
        let steps = solve(&mut state, n);
        assert_eq!(steps, (1u64 << n) - 1);
        assert!(state.done());
        let expected: Vec<u8> = (1..=n).rev().collect();
        assert_eq!(sizes(&state, Peg::Right), expected);
    }
}

#[test]
fn auto_on_solved_is_already_done() {
    let mut state = State::new(3);
    solve(&mut state, 3);
    let before = (sizes(&state, Peg::Left), sizes(&state, Peg::Center), sizes(&state, Peg::Right));
    assert_eq!(state.auto_step(), Err(HanoiError::AlreadyDone));
    let after = (sizes(&state, Peg::Left), sizes(&state, Peg::Center), sizes(&state, Peg::Right));
    assert_eq!(before, after);
}

#[test]
fn auto_first_moves_of_three() {
    let mut state = State::new(3);
    assert_eq!(state.auto_step(), Ok(NextStep::Continue));
    assert_eq!(sizes(&state, Peg::Right), vec![1]);
    assert_eq!(state.auto_step(), Ok(NextStep::Continue));
    assert_eq!(sizes(&state, Peg::Center), vec![2]);
    assert_eq!(state.auto_step(), Ok(NextStep::Continue));
    assert_eq!(sizes(&state, Peg::Center), vec![2, 1]);
    assert_eq!(state.auto_step(), Ok(NextStep::Continue));
    assert_eq!(sizes(&state, Peg::Right), vec![3]);
}

#[test]
fn auto_continues_from_a_lopsided_position() {
    let mut state = State::new(4);
    state.do_move(Move::new(Peg::Left, Peg::Center)).unwrap();
    state.do_move(Move::new(Peg::Left, Peg::Right)).unwrap();
    state.do_move(Move::new(Peg::Center, Peg::Right)).unwrap();
    state.do_move(Move::new(Peg::Left, Peg::Center)).unwrap();
    assert_eq!(sizes(&state, Peg::Left), vec![4]);
    assert_eq!(sizes(&state, Peg::Center), vec![3]);
    assert_eq!(sizes(&state, Peg::Right), vec![2, 1]);
    let steps = solve(&mut state, 4);
    assert!(state.done());
    assert_eq!(sizes(&state, Peg::Right), vec![4, 3, 2, 1]);
    assert_eq!(steps, 11);
}

#[test]
fn auto_finishes_on_center_when_largest_is_there() {
    let mut state = State::new(2);
    state.do_move(Move::new(Peg::Left, Peg::Right)).unwrap();
    state.do_move(Move::new(Peg::Left, Peg::Center)).unwrap();
    assert_eq!(state.auto_step(), Ok(NextStep::Win));
    assert_eq!(sizes(&state, Peg::Center), vec![2, 1]);
}
