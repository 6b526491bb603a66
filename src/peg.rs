use vstd::prelude::*;

verus! {

/// A single disk, identified by its size.
#[derive(PartialEq, Eq, Structural, PartialOrd, Ord, Clone, Copy, Debug)]
pub struct Disk(pub u8);

/// An identifier for a peg.
#[derive(PartialEq, Eq, Structural, Clone, Copy, Debug)]
pub enum Peg {
    Left,
    Center,
    Right,
}

/// The peg that is neither `a` nor `b`.
pub open spec fn third_peg(a: Peg, b: Peg) -> Peg {
    if a != Peg::Left && b != Peg::Left {
        Peg::Left
    } else if a != Peg::Center && b != Peg::Center {
        Peg::Center
    } else {
        Peg::Right
    }
}

/// The "odd peg out": given two distinct pegs, returns the remaining one.
pub fn odd_peg_out(a: Peg, b: Peg) -> (r: Peg)
    requires
        a != b,
    ensures
        r == third_peg(a, b),
        r != a,
        r != b,
{
    match (a, b) {
        (Peg::Left, Peg::Center) | (Peg::Center, Peg::Left) => Peg::Right,
        (Peg::Left, Peg::Right) | (Peg::Right, Peg::Left) => Peg::Center,
        _ => Peg::Left,
    }
}

} // verus!
