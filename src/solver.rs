use vstd::prelude::*;
use vstd::arithmetic::power::lemma_pow0;
use vstd::arithmetic::power2::{pow2, lemma_pow2_unfold};
use crate::peg::{Disk, Peg, third_peg, odd_peg_out};
use crate::game::{HanoiError, Move, NextStep};
use crate::state::{
    State, Towers, accepts, has, initial, strictly_decreasing, lemma_initial_wf,
    lemma_move_keeps_wf, lemma_on_one_peg,
};

verus! {

/// The peg on which disk `d` lies (meaningful for a disk of a legal position).
pub open spec fn loc(t: Towers, d: int) -> Peg {
    if t.holds(Peg::Left, d) {
        Peg::Left
    } else if t.holds(Peg::Center, d) {
        Peg::Center
    } else {
        Peg::Right
    }
}

/// The peg that the whole puzzle is solved onto: the one that holds the
/// largest disk, or `Right` while the largest disk is still on the start peg.
pub open spec fn goal(t: Towers) -> Peg {
    if loc(t, t.total() as int) == Peg::Left {
        Peg::Right
    } else {
        loc(t, t.total() as int)
    }
}

/// The number of moves that carry a whole stack of `k` disks to another peg.
pub open spec fn tower_moves(k: nat) -> nat
    decreases k,
{
    if k == 0 {
        0
    } else {
        2 * tower_moves((k - 1) as nat) + 1
    }
}

/// The next move that gathers disks `1..=k` on `target`, as the disk to move
/// and its destination, or `None` when they are all there already.
///
/// Disk `k` either already lies on `target`, and the smaller disks go there
/// too; or it must move there, which first needs every smaller disk on the
/// third peg.
pub open spec fn next_step(t: Towers, k: nat, target: Peg) -> Option<(nat, Peg)>
    decreases k,
{
    if k == 0 {
        None
    } else if loc(t, k as int) == target {
        next_step(t, (k - 1) as nat, target)
    } else {
        match next_step(t, (k - 1) as nat, third_peg(loc(t, k as int), target)) {
            Some(s) => Some(s),
            None => Some((k, target)),
        }
    }
}

/// How many moves remain, in the fewest, until disks `1..=k` lie on `target`.
pub open spec fn moves_left(t: Towers, k: nat, target: Peg) -> nat
    decreases k,
{
    if k == 0 {
        0
    } else if loc(t, k as int) == target {
        moves_left(t, (k - 1) as nat, target)
    } else {
        moves_left(t, (k - 1) as nat, third_peg(loc(t, k as int), target)) + tower_moves(
            (k - 1) as nat,
        ) + 1
    }
}

/// The move that the solver makes on `t`: the disk to move and where it goes.
pub open spec fn solver_choice(t: Towers) -> Option<(nat, Peg)> {
    next_step(t, t.total(), goal(t))
}

/// How many solver moves remain until `t` is solved.
pub open spec fn distance(t: Towers) -> nat {
    moves_left(t, t.total(), goal(t))
}

/// The position after one solver step; a solved position stays as it is.
pub open spec fn auto_next(t: Towers) -> Towers {
    match solver_choice(t) {
        Some((d, to)) => t.after_move(Move { from: loc(t, d as int), to })->Ok_0,
        None => t,
    }
}

/// The position after `k` solver steps from `t`.
pub open spec fn auto_run(t: Towers, k: nat) -> Towers
    decreases k,
{
    if k == 0 {
        t
    } else {
        auto_run(auto_next(t), (k - 1) as nat)
    }
}

proof fn lemma_loc(t: Towers, d: int)
    requires
        t.wf(),
        1 <= d <= t.total(),
    ensures
        t.holds(loc(t, d), d),
        forall|p: Peg| #[trigger] t.holds(p, d) ==> p == loc(t, d),
{
    lemma_on_one_peg(t, d);
}

/// When no step is left, every disk up to `k` lies on `target`, and back.
proof fn lemma_no_step(t: Towers, k: nat, target: Peg)
    ensures
        next_step(t, k, target) is None <==> forall|d: int|
            1 <= d <= k ==> #[trigger] loc(t, d) == target,
        next_step(t, k, target) is None <==> moves_left(t, k, target) == 0,
    decreases k,
{
    if k > 0 {
        lemma_no_step(t, (k - 1) as nat, target);
        lemma_no_step(t, (k - 1) as nat, third_peg(loc(t, k as int), target));
        if next_step(t, k, target) is None {
            assert forall|d: int| 1 <= d <= k implies #[trigger] loc(t, d) == target by {
                if d < k {
                    assert(loc(t, d) == target);
                }
            }
        }
    }
}

/// Disk `k`, which is not on `target`, can move there exactly when every
/// smaller disk lies on the third peg: it is then the top of its peg, and
/// the top of `target` (if any) is larger.
proof fn lemma_legal(t: Towers, k: nat, target: Peg)
    requires
        t.wf(),
        1 <= k <= t.total(),
        loc(t, k as int) != target,
    ensures
        t.tower(loc(t, k as int)).len() > 0,
        next_step(t, (k - 1) as nat, third_peg(loc(t, k as int), target)) is None <==> (t.tower(
            loc(t, k as int),
        ).last().0 == k && accepts(t.tower(target), Disk(k as u8))),
{
    let p = loc(t, k as int);
    let o = third_peg(p, target);
    let src = t.tower(p);
    let dst = t.tower(target);
    lemma_loc(t, k as int);
    lemma_no_step(t, (k - 1) as nat, o);
    let i = choose|i: int| 0 <= i < src.len() && src[i].0 == k;
    let last = src.len() - 1;
    assert(strictly_decreasing(src));
    assert(strictly_decreasing(dst));
    if next_step(t, (k - 1) as nat, o) is None {
        if i < last {
            let x = src[last].0 as int;
            assert(1 <= x <= t.total());
            lemma_loc(t, x);
            assert(t.holds(p, x));
            assert(loc(t, x) == o);
        }
        if dst.len() > 0 {
            let x = dst[dst.len() - 1].0 as int;
            assert(1 <= x <= t.total());
            lemma_loc(t, x);
            assert(t.holds(target, x));
            if x == k {
                assert(loc(t, x) == target);
            }
            if x < k {
                assert(loc(t, x) == o);
            }
        }
    }
    if src.last().0 == k && accepts(dst, Disk(k as u8)) {
        assert forall|d: int| 1 <= d <= k - 1 implies #[trigger] loc(t, d) == o by {
            lemma_loc(t, d);
            let q = loc(t, d);
            let j = choose|j: int| 0 <= j < t.tower(q).len() && t.tower(q)[j].0 == d;
            if q == p {
                assert(src[j].0 > src[last].0);
            }
            if q == target {
                if j < dst.len() - 1 {
                    assert(dst[j].0 > dst[dst.len() - 1].0);
                }
            }
        }
    }
}

/// The step that `next_step` picks moves a disk that is off its destination
/// while every smaller disk waits on the third peg.
proof fn lemma_step_shape(t: Towers, k: nat, target: Peg)
    requires
        next_step(t, k, target) is Some,
    ensures
        ({
            let (d, dest) = next_step(t, k, target)->Some_0;
            &&& 1 <= d <= k
            &&& loc(t, d as int) != dest
            &&& next_step(t, (d - 1) as nat, third_peg(loc(t, d as int), dest)) is None
            &&& d == k ==> dest == target && loc(t, k as int) != target
        }),
    decreases k,
{
    if loc(t, k as int) == target {
        lemma_step_shape(t, (k - 1) as nat, target);
    } else if next_step(t, (k - 1) as nat, third_peg(loc(t, k as int), target)) is Some {
        lemma_step_shape(t, (k - 1) as nat, third_peg(loc(t, k as int), target));
    }
}

/// A whole stack of disks `1..=k` on a peg other than `target` is
/// `tower_moves(k)` moves away from it.
proof fn lemma_full_stack(t: Towers, k: nat, from: Peg, target: Peg)
    requires
        from != target,
        forall|d: int| 1 <= d <= k ==> #[trigger] loc(t, d) == from,
    ensures
        moves_left(t, k, target) == tower_moves(k),
    decreases k,
{
    if k > 0 {
        assert(loc(t, k as int) == from);
        lemma_full_stack(t, (k - 1) as nat, from, third_peg(from, target));
    }
}

/// Making the chosen step brings the disks `1..=k` one move closer to
/// `target`: `t2` is `t` with the chosen disk on its destination and every
/// other disk where it was.
proof fn lemma_step_progress(t: Towers, t2: Towers, k: nat, target: Peg)
    requires
        t.wf(),
        k <= t.total(),
        next_step(t, k, target) is Some,
        forall|j: int|
            1 <= j <= t.total() && j != next_step(t, k, target)->Some_0.0 ==> #[trigger] loc(t2, j)
                == loc(t, j),
        loc(t2, next_step(t, k, target)->Some_0.0 as int) == next_step(t, k, target)->Some_0.1,
    ensures
        moves_left(t2, k, target) + 1 == moves_left(t, k, target),
    decreases k,
{
    let (d, dest) = next_step(t, k, target)->Some_0;
    lemma_step_shape(t, k, target);
    let o = third_peg(loc(t, k as int), target);
    if k == d {
        lemma_no_step(t, (k - 1) as nat, o);
        assert forall|j: int| 1 <= j <= k - 1 implies #[trigger] loc(t2, j) == o by {
            assert(loc(t, j) == o);
        }
        lemma_full_stack(t2, (k - 1) as nat, o, target);
    } else {
        assert(loc(t2, k as int) == loc(t, k as int));
        if loc(t, k as int) == target {
            lemma_step_progress(t, t2, (k - 1) as nat, target);
        } else {
            lemma_step_progress(t, t2, (k - 1) as nat, o);
        }
    }
}

/// On a legal position the solver finds no move exactly when the puzzle is
/// solved.
proof fn lemma_choice_none_iff_solved(t: Towers)
    requires
        t.wf(),
    ensures
        solver_choice(t) is None <==> t.solved(),
{
    let n = t.total();
    let g = goal(t);
    lemma_no_step(t, n, g);
    lemma_loc(t, n as int);
    if solver_choice(t) is None {
        assert forall|p: Peg| p != g implies t.tower(p).len() == 0 by {
            if t.tower(p).len() > 0 {
                let x = t.tower(p)[0].0 as int;
                assert(1 <= x <= n);
                lemma_loc(t, x);
                assert(t.holds(p, x));
            }
        }
        assert(t.tower(Peg::Left).len() == 0);
    }
    if t.solved() {
        let e = if t.center.len() == 0 {
            Peg::Center
        } else {
            Peg::Right
        };
        let full = third_peg(Peg::Left, e);
        assert forall|d: int| 1 <= d <= n implies #[trigger] loc(t, d) == full by {
            lemma_loc(t, d);
            assert(t.tower(Peg::Left).len() == 0);
            assert(t.tower(e).len() == 0);
        }
        assert(loc(t, n as int) == full);
    }
}

/// Moving disk `d` of a legal position to `dest` leaves every other disk
/// where it was.
proof fn lemma_locs_after_move(t: Towers, m: Move)
    requires
        t.wf(),
        t.after_move(m) is Ok,
    ensures
        ({
            let t2 = t.after_move(m)->Ok_0;
            let d = t.tower(m.from).last().0 as int;
            &&& t2.wf()
            &&& t2.total() == t.total()
            &&& loc(t2, d) == m.to
            &&& forall|j: int| 1 <= j <= t.total() && j != d ==> #[trigger] loc(t2, j) == loc(t, j)
        }),
{
    lemma_move_keeps_wf(t, m);
    let t2 = t.after_move(m)->Ok_0;
    let d = t.tower(m.from).last().0 as int;
    assert(1 <= d <= t.total()) by {
        assert(1 <= t.tower(m.from)[t.tower(m.from).len() - 1].0 <= t.total());
    }
    assert(t2.holds(Peg::Left, d) == (m.to == Peg::Left));
    assert(t2.holds(Peg::Center, d) == (m.to == Peg::Center));
    assert forall|j: int| 1 <= j <= t.total() && j != d implies #[trigger] loc(t2, j) == loc(t, j) by {
        assert(t2.holds(Peg::Left, j) == t.holds(Peg::Left, j));
        assert(t2.holds(Peg::Center, j) == t.holds(Peg::Center, j));
    }
}

/// One solver step on an unsolved legal position: the chosen disk is the
/// top of its peg, the move is legal, the result is legal, and it is one
/// step closer to solved.
pub proof fn lemma_solver_step(t: Towers)
    requires
        t.wf(),
        !t.solved(),
    ensures
        solver_choice(t) is Some,
        ({
            let (d, to) = solver_choice(t)->Some_0;
            let m = Move { from: loc(t, d as int), to };
            &&& 1 <= d <= t.total()
            &&& m.from != m.to
            &&& t.tower(m.from).len() > 0
            &&& t.tower(m.from).last().0 == d
            &&& t.after_move(m) is Ok
            &&& auto_next(t) == t.after_move(m)->Ok_0
        }),
        auto_next(t).wf(),
        auto_next(t).total() == t.total(),
        distance(auto_next(t)) + 1 == distance(t),
{
    lemma_choice_none_iff_solved(t);
    let n = t.total();
    let g = goal(t);
    let (d, to) = solver_choice(t)->Some_0;
    lemma_step_shape(t, n, g);
    let from = loc(t, d as int);
    let m = Move { from, to };
    lemma_legal(t, d, to);
    let src = t.tower(from);
    assert(t.with_tower(from, src.drop_last()).tower(to) == t.tower(to));
    assert(t.after_move(m) is Ok);
    lemma_locs_after_move(t, m);
    let t2 = t.after_move(m)->Ok_0;
    lemma_step_progress(t, t2, n, g);
    assert(goal(t2) == g) by {
        if d == n {
            lemma_loc(t, n as int);
        }
    }
}

/// On a legal position no solver move is left exactly when it is solved.
proof fn lemma_distance_zero_iff_solved(t: Towers)
    requires
        t.wf(),
    ensures
        distance(t) == 0 <==> t.solved(),
{
    lemma_no_step(t, t.total(), goal(t));
    lemma_choice_none_iff_solved(t);
}

/// Repeated solver steps from a legal position: after `k` of them, up to
/// `distance(t)`, the position is still legal, `k` moves closer to solved,
/// and it is solved exactly when `k` reaches `distance(t)`.
pub proof fn lemma_auto_run(t: Towers, k: nat)
    requires
        t.wf(),
        k <= distance(t),
    ensures
        auto_run(t, k).wf(),
        auto_run(t, k).total() == t.total(),
        distance(auto_run(t, k)) == distance(t) - k,
        auto_run(t, k).solved() <==> k == distance(t),
    decreases k,
{
    lemma_distance_zero_iff_solved(t);
    if k > 0 {
        lemma_solver_step(t);
        lemma_auto_run(auto_next(t), (k - 1) as nat);
    }
}

/// From the starting position of `n` disks the solver needs exactly
/// `2^n - 1` steps: every position before that is unsolved and legal, so
/// each step there succeeds, and the position after the last is solved.
pub proof fn lemma_auto_solves_from_start(n: nat)
    requires
        1 <= n <= 255,
    ensures
        distance(initial(n)) == tower_moves(n),
        tower_moves(n) + 1 == pow2(n),
        forall|k: nat|
            k < tower_moves(n) ==> (#[trigger] auto_run(initial(n), k)).wf() && !auto_run(
                initial(n),
                k,
            ).solved(),
        auto_run(initial(n), tower_moves(n)).solved(),
{
    let t = initial(n);
    lemma_initial_wf(n);
    assert forall|d: int| 1 <= d <= n implies #[trigger] loc(t, d) == Peg::Left by {
        assert(t.left[n - d].0 == d);
    }
    assert(goal(t) == Peg::Right);
    lemma_full_stack(t, n, Peg::Left, Peg::Right);
    lemma_tower_moves_pow2(n);
    assert forall|k: nat| k < tower_moves(n) implies (#[trigger] auto_run(t, k)).wf() && !auto_run(
        t,
        k,
    ).solved() by {
        lemma_auto_run(t, k);
    }
    lemma_auto_run(t, tower_moves(n));
}

proof fn lemma_tower_moves_pow2(k: nat)
    ensures
        tower_moves(k) + 1 == pow2(k),
    decreases k,
{
    if k == 0 {
        lemma_pow0(2);
    } else {
        lemma_tower_moves_pow2((k - 1) as nat);
        lemma_pow2_unfold(k);
    }
}

fn tower_has(v: &Vec<Disk>, k: u8) -> (r: bool)
    ensures
        r == has(v@, k as int),
{
    let mut i: usize = 0;
    while i < v.len()
        invariant
            i <= v.len(),
            forall|j: int| 0 <= j < i ==> v@[j].0 != k,
        decreases v.len() - i,
    {
        if v[i].0 == k {
            return true;
        }
        i = i + 1;
    }
    false
}

/// The size of the bottom disk of a tower, or 0 for an empty one.
fn bottom_size(v: &Vec<Disk>) -> (r: u8)
    ensures
        v@.len() == 0 ==> r == 0,
        v@.len() > 0 ==> r == v@[0].0,
{
    if v.len() == 0 {
        0
    } else {
        v[0].0
    }
}

impl State {
    /// The peg that holds the disk of size `size`.
    pub fn find_disk(&self, size: u8) -> (r: Peg)
        requires
            self@.wf(),
            1 <= size <= self@.total(),
        ensures
            r == loc(self@, size as int),
            self@.holds(r, size as int),
    {
        proof {
            lemma_loc(self@, size as int);
        }
        if tower_has(self.get_tower(Peg::Left), size) {
            Peg::Left
        } else if tower_has(self.get_tower(Peg::Center), size) {
            Peg::Center
        } else {
            Peg::Right
        }
    }

    /// The size of the largest disk in the puzzle, found as the largest of
    /// the bottom disks. In a legal position it is the number of disks.
    pub fn largest_disk(&self) -> (r: u8)
        requires
            self@.wf(),
        ensures
            r == self@.total(),
    {
        let ghost t = self@;
        let ghost n = t.total();
        proof {
            lemma_loc(t, n as int);
            assert forall|p: Peg| #[trigger] t.tower(p).len() > 0 implies t.tower(p)[0].0 <= n by {
            }
            let q = loc(t, n as int);
            let i = choose|i: int| 0 <= i < t.tower(q).len() && t.tower(q)[i].0 == n;
            if i > 0 {
                assert(t.tower(q)[0].0 > t.tower(q)[i].0);
            }
        }
        let l = bottom_size(self.get_tower(Peg::Left));
        let c = bottom_size(self.get_tower(Peg::Center));
        let r = bottom_size(self.get_tower(Peg::Right));
        let mut largest: u8 = l;
        if c > largest {
            largest = c;
        }
        if r > largest {
            largest = r;
        }
        proof {
            assert(t.tower(Peg::Left) == t.left);
            assert(t.tower(Peg::Center) == t.center);
            assert(t.tower(Peg::Right) == t.right);
        }
        largest
    }

    /// Makes one move toward a solved puzzle from the current position,
    /// whatever moves led to it.
    ///
    /// The disks are walked from the largest down, with a target peg for
    /// each: the largest goes to the peg that holds it, or to `Right` while
    /// it is on the start peg. A disk on its target keeps the target for the
    /// next one; a disk elsewhere is moved there if it is on top and the
    /// target takes it, and otherwise the next disk's target is the odd peg
    /// out of the disk's peg and the target. The first move made ends the
    /// walk with `Win` or `Continue`; a walk with none fails with
    /// `AlreadyDone` and changes nothing, which happens exactly on a solved
    /// puzzle.
    pub fn auto_step(&mut self) -> (r: Result<NextStep, HanoiError>)
        requires
            old(self)@.wf(),
        ensures
            final(self)@ == auto_next(old(self)@),
            final(self)@.wf(),
            old(self)@.solved() ==> r == Err::<NextStep, HanoiError>(HanoiError::AlreadyDone)
                && final(self)@ == old(self)@,
            !old(self)@.solved() ==> r == Ok::<NextStep, HanoiError>(
                if final(self)@.solved() { NextStep::Win } else { NextStep::Continue },
            ),
    {
        let n = self.largest_disk();
        let mut target = match self.find_disk(n) {
            Peg::Left => Peg::Right,
            p => p,
        };
        let mut k: u8 = n;
        while k > 0
            invariant
                self@ == old(self)@,
                self@.wf(),
                k <= n,
                n == self@.total(),
                next_step(self@, k as nat, target) == solver_choice(self@),
            decreases k,
        {
            let p = self.find_disk(k);
            if p != target {
                proof {
                    lemma_legal(self@, k as nat, target);
                    assert(self@.with_tower(p, self@.tower(p).drop_last()).tower(target)
                        == self@.tower(target));
                }
                let on_top = match self.peek_disk(p) {
                    Some(top) => top.0 == k,
                    None => false,
                };
                if on_top {
                    let ghost before = self@;
                    match self.do_move(Move::new(p, target)) {
                        Ok(step) => {
                            proof {
                                lemma_choice_none_iff_solved(before);
                            }
                            return Ok(step);
                        },
                        Err(_) => {},
                    }
                }
                target = odd_peg_out(p, target);
            }
            k = k - 1;
        }
        proof {
            lemma_choice_none_iff_solved(self@);
        }
        Err(HanoiError::AlreadyDone)
    }
}

} // verus!
