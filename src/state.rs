use vstd::prelude::*;
use crate::peg::{Disk, Peg};
use crate::game::{HanoiError, Move, NextStep};

verus! {

/// True when the sizes strictly decrease from the bottom (index 0) to the top.
pub open spec fn strictly_decreasing(s: Seq<Disk>) -> bool {
    forall|i: int, j: int| 0 <= i < j < s.len() ==> s[i].0 > s[j].0
}

/// Whether a disk of size `d` is in `s`.
pub open spec fn has(s: Seq<Disk>, d: int) -> bool {
    exists|i: int| 0 <= i < s.len() && s[i].0 == d
}

/// Whether `d` may be placed on top of the tower `s`.
pub open spec fn accepts(s: Seq<Disk>, d: Disk) -> bool {
    s.len() == 0 || s.last().0 > d.0
}

/// The contents of the three pegs, bottom first.
pub struct Towers {
    pub left: Seq<Disk>,
    pub center: Seq<Disk>,
    pub right: Seq<Disk>,
}

impl Towers {
    pub open spec fn tower(self, peg: Peg) -> Seq<Disk> {
        match peg {
            Peg::Left => self.left,
            Peg::Center => self.center,
            Peg::Right => self.right,
        }
    }

    /// The same towers with the one of `peg` replaced by `s`.
    pub open spec fn with_tower(self, peg: Peg, s: Seq<Disk>) -> Towers {
        match peg {
            Peg::Left => Towers { left: s, ..self },
            Peg::Center => Towers { center: s, ..self },
            Peg::Right => Towers { right: s, ..self },
        }
    }

    /// The number of disks in the puzzle.
    pub open spec fn total(self) -> nat {
        self.left.len() + self.center.len() + self.right.len()
    }

    /// Whether a disk of size `d` lies on `peg`.
    pub open spec fn holds(self, peg: Peg, d: int) -> bool {
        has(self.tower(peg), d)
    }

    /// A legal position: every peg is strictly decreasing, and the disks are
    /// exactly the sizes `1..=total`, each on exactly one peg.
    pub open spec fn wf(self) -> bool {
        &&& 1 <= self.total() <= 255
        &&& forall|p: Peg| strictly_decreasing(#[trigger] self.tower(p))
        &&& forall|p: Peg, i: int|
            0 <= i < self.tower(p).len() ==> 1 <= #[trigger] self.tower(p)[i].0 <= self.total()
        &&& forall|d: int|
            1 <= d <= self.total() ==> {
                &&& (#[trigger] self.holds(Peg::Left, d) || self.holds(Peg::Center, d)
                    || self.holds(Peg::Right, d))
                &&& !(self.holds(Peg::Left, d) && self.holds(Peg::Center, d))
                &&& !(self.holds(Peg::Left, d) && self.holds(Peg::Right, d))
                &&& !(self.holds(Peg::Center, d) && self.holds(Peg::Right, d))
            }
    }

    /// The puzzle is won: the start peg (`Left`) is empty, and so is one of
    /// the other two.
    pub open spec fn solved(self) -> bool {
        self.left.len() == 0 && (self.center.len() == 0 || self.right.len() == 0)
    }

    /// The result of moving the top disk of `m.from` onto `m.to`: first it is
    /// taken off, then it is placed, and any failure undoes the whole move.
    pub open spec fn after_move(self, m: Move) -> Result<Towers, HanoiError> {
        let src = self.tower(m.from);
        if src.len() == 0 {
            Err(HanoiError::EmptyFrom(m.from))
        } else {
            let d = src.last();
            let lifted = self.with_tower(m.from, src.drop_last());
            if accepts(lifted.tower(m.to), d) {
                Ok(lifted.with_tower(m.to, lifted.tower(m.to).push(d)))
            } else {
                Err(HanoiError::UnstableStack(m.to, d))
            }
        }
    }
}

/// In a legal position each disk lies on exactly one peg.
pub proof fn lemma_on_one_peg(t: Towers, k: int)
    requires
        t.wf(),
        1 <= k <= t.total(),
    ensures
        t.holds(Peg::Left, k) || t.holds(Peg::Center, k) || t.holds(Peg::Right, k),
        forall|p: Peg, q: Peg| t.holds(p, k) && t.holds(q, k) ==> p == q,
{
    assert(t.holds(Peg::Left, k) || t.holds(Peg::Center, k) || t.holds(Peg::Right, k));
}

proof fn lemma_has_push(s: Seq<Disk>, x: Disk, d: int)
    ensures
        has(s.push(x), d) <==> (has(s, d) || x.0 == d),
{
    if has(s, d) {
        let i = choose|i: int| 0 <= i < s.len() && s[i].0 == d;
        assert(s.push(x)[i] == s[i]);
    }
    if x.0 == d {
        assert(s.push(x)[s.len() as int] == x);
    }
    if has(s.push(x), d) {
        let i = choose|i: int| 0 <= i < s.push(x).len() && s.push(x)[i].0 == d;
        if i < s.len() {
            assert(s[i] == s.push(x)[i]);
        }
    }
}

proof fn lemma_has_drop_last(s: Seq<Disk>, d: int)
    requires
        s.len() > 0,
        strictly_decreasing(s),
    ensures
        has(s.drop_last(), d) <==> (has(s, d) && s.last().0 != d),
{
    if has(s, d) && s.last().0 != d {
        let i = choose|i: int| 0 <= i < s.len() && s[i].0 == d;
        assert(s.drop_last()[i] == s[i]);
    }
    if has(s.drop_last(), d) {
        let i = choose|i: int| 0 <= i < s.drop_last().len() && s.drop_last()[i].0 == d;
        assert(s[i] == s.drop_last()[i]);
    }
}

proof fn lemma_push_decreasing(s: Seq<Disk>, x: Disk)
    requires
        strictly_decreasing(s),
        accepts(s, x),
    ensures
        strictly_decreasing(s.push(x)),
{
    assert forall|i: int, j: int| 0 <= i < j < s.push(x).len() implies s.push(x)[i].0 > s.push(
        x,
    )[j].0 by {
        if j == s.len() {
            if i < s.len() - 1 {
                assert(s[i].0 > s[s.len() - 1].0);
            }
        }
    }
}

/// A successful move keeps a legal position legal.
pub proof fn lemma_move_keeps_wf(t: Towers, m: Move)
    requires
        t.wf(),
        t.after_move(m) is Ok,
    ensures
        t.after_move(m)->Ok_0.wf(),
        t.after_move(m)->Ok_0.total() == t.total(),
        forall|p: Peg, k: int|
            1 <= k <= t.total() ==> (#[trigger] t.after_move(m)->Ok_0.holds(p, k) <==> if k
                == t.tower(m.from).last().0 {
                p == m.to
            } else {
                t.holds(p, k)
            }),
{
    let src = t.tower(m.from);
    let d = src.last();
    let lifted = t.with_tower(m.from, src.drop_last());
    let dst = lifted.tower(m.to);
    let t2 = lifted.with_tower(m.to, dst.push(d));
    assert(t2 == t.after_move(m)->Ok_0);
    assert(strictly_decreasing(t.tower(m.from)));
    assert(t2.total() == t.total());
    assert(strictly_decreasing(src.drop_last()));
    assert(strictly_decreasing(dst)) by {
        if m.to != m.from {
            assert(dst == t.tower(m.to));
            assert(strictly_decreasing(t.tower(m.to)));
        }
    }
    lemma_push_decreasing(dst, d);
    assert forall|p: Peg| strictly_decreasing(#[trigger] t2.tower(p)) by {
        assert(strictly_decreasing(t.tower(p)));
    }
    assert(1 <= d.0 <= t.total()) by {
        assert(1 <= t.tower(m.from)[src.len() - 1].0 <= t.total());
    }
    assert forall|p: Peg, i: int| 0 <= i < t2.tower(p).len() implies 1 <= #[trigger] t2.tower(
        p,
    )[i].0 <= t2.total() by {
        if !(p == m.to && i == dst.len()) {
            assert(t2.tower(p)[i] == t.tower(p)[i]);
        }
    }
    assert forall|p: Peg, k: int| 1 <= k <= t.total() implies (#[trigger] t2.holds(p, k) <==> (
    if k == d.0 {
        p == m.to
    } else {
        t.holds(p, k)
    })) by {
        assert(t.holds(Peg::Left, k) || t.holds(Peg::Center, k) || t.holds(Peg::Right, k));
        lemma_has_drop_last(src, k);
        lemma_has_push(dst, d, k);
        if p == m.to {
            assert(t2.tower(p) == dst.push(d));
            if m.to == m.from {
                assert(dst == src.drop_last());
            } else {
                assert(dst == t.tower(p));
            }
        } else if p == m.from {
            assert(t2.tower(p) == src.drop_last());
        } else {
            assert(t2.tower(p) == t.tower(p));
        }
        assert(t.holds(m.from, d.0 as int)) by {
            assert(src[src.len() - 1] == d);
        }
        lemma_on_one_peg(t, k);
        if k == d.0 {
            if p == m.to {
                assert(t2.holds(p, k));
            } else if p == m.from {
                assert(!t2.holds(p, k));
            } else {
                assert(!t.holds(p, k));
                assert(!t2.holds(p, k));
            }
            assert(t2.holds(p, k) == (p == m.to));
        } else {
            assert(t2.holds(p, k) == t.holds(p, k));
        }
    }
    assert forall|k: int| 1 <= k <= t2.total() implies {
        &&& (#[trigger] t2.holds(Peg::Left, k) || t2.holds(Peg::Center, k) || t2.holds(
            Peg::Right,
            k,
        ))
        &&& !(t2.holds(Peg::Left, k) && t2.holds(Peg::Center, k))
        &&& !(t2.holds(Peg::Left, k) && t2.holds(Peg::Right, k))
        &&& !(t2.holds(Peg::Center, k) && t2.holds(Peg::Right, k))
    } by {
        lemma_on_one_peg(t, k);
        assert(t2.holds(Peg::Left, k) == (if k == d.0 {
            Peg::Left == m.to
        } else {
            t.holds(Peg::Left, k)
        }));
        assert(t2.holds(Peg::Center, k) == (if k == d.0 {
            Peg::Center == m.to
        } else {
            t.holds(Peg::Center, k)
        }));
        assert(t2.holds(Peg::Right, k) == (if k == d.0 {
            Peg::Right == m.to
        } else {
            t.holds(Peg::Right, k)
        }));
    }
}

/// The state of the game: the disks on each peg, bottom of each peg first.
pub struct State {
    left: Vec<Disk>,
    center: Vec<Disk>,
    right: Vec<Disk>,
}

impl View for State {
    type V = Towers;

    closed spec fn view(&self) -> Towers {
        Towers { left: self.left@, center: self.center@, right: self.right@ }
    }
}

/// The starting position: disks `n, n-1, ..., 1` on `Left`, bottom first.
pub open spec fn initial(n: nat) -> Towers {
    Towers {
        left: Seq::new(n, |i: int| Disk((n - i) as u8)),
        center: Seq::empty(),
        right: Seq::empty(),
    }
}

/// The starting position of a puzzle of one to 255 disks is legal.
pub proof fn lemma_initial_wf(n: nat)
    requires
        1 <= n <= 255,
    ensures
        initial(n).wf(),
{
    let t = initial(n);
    assert(t.total() == n);
    assert forall|p: Peg| strictly_decreasing(#[trigger] t.tower(p)) by {}
    assert forall|k: int| 1 <= k <= t.total() implies {
        &&& (#[trigger] t.holds(Peg::Left, k) || t.holds(Peg::Center, k) || t.holds(Peg::Right, k))
        &&& !(t.holds(Peg::Left, k) && t.holds(Peg::Center, k))
        &&& !(t.holds(Peg::Left, k) && t.holds(Peg::Right, k))
        &&& !(t.holds(Peg::Center, k) && t.holds(Peg::Right, k))
    } by {
        assert(t.left[n - k].0 == k);
    }
}

/// Whether the tower `s` holds every disk of a puzzle of `n` disks.
pub open spec fn holds_all(s: Seq<Disk>, n: nat) -> bool {
    forall|d: int| 1 <= d <= n ==> #[trigger] has(s, d)
}

/// In a legal position, the puzzle is solved exactly when the start peg is
/// empty and exactly one of the other two pegs holds all the disks.
pub proof fn lemma_solved_iff_one_full_peg(t: Towers)
    requires
        t.wf(),
    ensures
        t.solved() <==> (t.left.len() == 0 && (holds_all(t.center, t.total()) != holds_all(
            t.right,
            t.total(),
        ))),
{
    let n = t.total();
    assert(t.tower(Peg::Center) == t.center);
    assert(t.tower(Peg::Right) == t.right);
    assert(t.tower(Peg::Left) == t.left);
    if t.solved() {
        let e = if t.center.len() == 0 {
            Peg::Center
        } else {
            Peg::Right
        };
        assert(!(has(t.tower(e), 1)));
        assert forall|d: int| 1 <= d <= n implies #[trigger] has(t.center, d) || has(t.right, d) by {
            lemma_on_one_peg(t, d);
        }
        assert forall|d: int| 1 <= d <= n implies #[trigger] has(t.center, d) || e == Peg::Center by {
            lemma_on_one_peg(t, d);
        }
        assert forall|d: int| 1 <= d <= n implies #[trigger] has(t.right, d) || e == Peg::Right by {
            lemma_on_one_peg(t, d);
        }
        if e == Peg::Center {
            assert(!holds_all(t.center, n));
            assert(holds_all(t.right, n));
        } else {
            assert(!holds_all(t.right, n));
            assert(holds_all(t.center, n));
        }
    }
    if t.left.len() == 0 && holds_all(t.center, n) != holds_all(t.right, n) {
        let full = if holds_all(t.center, n) {
            Peg::Center
        } else {
            Peg::Right
        };
        let other = if holds_all(t.center, n) {
            Peg::Right
        } else {
            Peg::Center
        };
        // A disk on `other` would also lie on `full`.
        assert(t.tower(other).len() == 0) by {
            if t.tower(other).len() > 0 {
                let x = t.tower(other)[0].0 as int;
                assert(1 <= x <= n);
                assert(t.holds(other, x));
                assert(t.holds(full, x));
                lemma_on_one_peg(t, x);
            }
        }
    }
}

impl State {
    /// Creates a game with `disks` disks in a single tower on `Left`.
    pub fn new(disks: u8) -> (r: State)
        requires
            disks >= 1,
        ensures
            r@ == initial(disks as nat),
            r@.wf(),
    {
        proof {
            lemma_initial_wf(disks as nat);
        }
        let mut left: Vec<Disk> = Vec::new();
        let mut k: u8 = disks;
        while k > 0
            invariant
                k <= disks,
                left@ == Seq::new((disks - k) as nat, |i: int| Disk((disks - i) as u8)),
            decreases k,
        {
            left.push(Disk(k));
            k = k - 1;
        }
        assert(left@ =~= initial(disks as nat).left);
        State { left, center: Vec::new(), right: Vec::new() }
    }

    /// Mutably borrows the tower for `peg`.
    pub fn get_tower_mut(&mut self, peg: Peg) -> (r: &mut Vec<Disk>)
        ensures
            r@ == old(self)@.tower(peg),
            final(self)@ == old(self)@.with_tower(peg, final(r)@),
    {
        match peg {
            Peg::Left => &mut self.left,
            Peg::Center => &mut self.center,
            Peg::Right => &mut self.right,
        }
    }

    /// Immutably borrows the tower for `peg`.
    pub fn get_tower(&self, peg: Peg) -> (r: &Vec<Disk>)
        ensures
            r@ == self@.tower(peg),
    {
        match peg {
            Peg::Left => &self.left,
            Peg::Center => &self.center,
            Peg::Right => &self.right,
        }
    }

    /// Pops the top disk off `peg`, if there is one.
    pub fn pop_disk(&mut self, peg: Peg) -> (r: Option<Disk>)
        ensures
            old(self)@.tower(peg).len() == 0 ==> r == None::<Disk> && final(self)@ == old(self)@,
            old(self)@.tower(peg).len() > 0 ==> r == Some(old(self)@.tower(peg).last())
                && final(self)@ == old(self)@.with_tower(peg, old(self)@.tower(peg).drop_last()),
    {
        let tower = self.get_tower_mut(peg);
        tower.pop()
    }

    /// Returns a copy of the top disk on `peg`, if there is one.
    pub fn peek_disk(&self, peg: Peg) -> (r: Option<Disk>)
        ensures
            self@.tower(peg).len() == 0 ==> r == None::<Disk>,
            self@.tower(peg).len() > 0 ==> r == Some(self@.tower(peg).last()),
    {
        let tower = self.get_tower(peg);
        if tower.len() == 0 {
            None
        } else {
            Some(tower[tower.len() - 1])
        }
    }

    /// Pushes `disk` onto the top of `peg`. Fails with `UnstableStack`, and
    /// changes nothing, when the peg's top disk is not larger than `disk`.
    pub fn push_disk(&mut self, peg: Peg, disk: Disk) -> (r: Result<(), HanoiError>)
        ensures
            accepts(old(self)@.tower(peg), disk) ==> r == Ok::<(), HanoiError>(())
                && final(self)@ == old(self)@.with_tower(peg, old(self)@.tower(peg).push(disk)),
            !accepts(old(self)@.tower(peg), disk) ==> r == Err::<(), HanoiError>(
                HanoiError::UnstableStack(peg, disk),
            ) && final(self)@ == old(self)@,
    {
        match self.peek_disk(peg) {
            Some(top) => {
                if top.0 <= disk.0 {
                    return Err(HanoiError::UnstableStack(peg, disk));
                }
            },
            None => {},
        }
        let tower = self.get_tower_mut(peg);
        tower.push(disk);
        Ok(())
    }

    /// Returns true when the game has been won: `Left` is empty and one of the
    /// other pegs holds every disk.
    pub fn done(&self) -> (r: bool)
        ensures
            r == self@.solved(),
    {
        self.left.len() == 0 && (self.center.len() == 0 || self.right.len() == 0)
    }

    /// Executes the given move. Returns `Win` when the move solves the puzzle
    /// and `Continue` when it does not; `EmptyFrom` when `mov.from` is empty and
    /// `UnstableStack` when the disk would land on a smaller one. No change is
    /// made when an error occurs.
    pub fn do_move(&mut self, mov: Move) -> (r: Result<NextStep, HanoiError>)
        ensures
            match old(self)@.after_move(mov) {
                Ok(t) => final(self)@ == t && r == Ok::<NextStep, HanoiError>(
                    if t.solved() { NextStep::Win } else { NextStep::Continue },
                ),
                Err(e) => final(self)@ == old(self)@ && r == Err::<NextStep, HanoiError>(e),
            },
            old(self)@.wf() ==> final(self)@.wf(),
    {
        proof {
            if old(self)@.wf() && old(self)@.after_move(mov) is Ok {
                lemma_move_keeps_wf(old(self)@, mov);
            }
        }
        let disk = match self.pop_disk(mov.from) {
            Some(d) => d,
            None => return Err(HanoiError::EmptyFrom(mov.from)),
        };
        match self.push_disk(mov.to, disk) {
            Ok(()) => {},
            Err(e) => {
                let tower = self.get_tower_mut(mov.from);
                tower.push(disk);
                assert(old(self)@.tower(mov.from).drop_last().push(disk) =~= old(self)@.tower(
                    mov.from,
                ));
                assert(self@.left =~= old(self)@.left);
                assert(self@.center =~= old(self)@.center);
                assert(self@.right =~= old(self)@.right);
                return Err(e);
            },
        }
        if self.done() {
            Ok(NextStep::Win)
        } else {
            Ok(NextStep::Continue)
        }
    }
}

} // verus!
