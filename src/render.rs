use vstd::prelude::*;
use crate::peg::{Disk, Peg};
use crate::state::State;

verus! {

/// The decimal digit for `d`, which is below 10.
pub open spec fn digit(d: nat) -> char {
    if d == 0 {
        '0'
    } else if d == 1 {
        '1'
    } else if d == 2 {
        '2'
    } else if d == 3 {
        '3'
    } else if d == 4 {
        '4'
    } else if d == 5 {
        '5'
    } else if d == 6 {
        '6'
    } else if d == 7 {
        '7'
    } else if d == 8 {
        '8'
    } else {
        '9'
    }
}

/// `n` written in decimal, without leading zeros.
pub open spec fn decimal(n: nat) -> Seq<char>
    decreases n,
{
    if n < 10 {
        seq![digit(n)]
    } else {
        decimal(n / 10) + seq![digit(n % 10)]
    }
}

/// The sizes of the disks of a tower, bottom first, separated by single spaces.
pub open spec fn tower_text(s: Seq<Disk>) -> Seq<char>
    decreases s.len(),
{
    if s.len() == 0 {
        Seq::empty()
    } else if s.len() == 1 {
        decimal(s[0].0 as nat)
    } else {
        tower_text(s.drop_last()) + seq![' '] + decimal(s.last().0 as nat)
    }
}

/// The name a peg is shown under, padded to six characters.
pub open spec fn peg_label(p: Peg) -> Seq<char> {
    match p {
        Peg::Left => "  Left"@,
        Peg::Center => "Center"@,
        Peg::Right => " Right"@,
    }
}

/// The line that shows a tower: its label, a colon and a space, then its disks.
pub open spec fn peg_line(p: Peg, s: Seq<Disk>) -> Seq<char> {
    peg_label(p) + ": "@ + tower_text(s)
}

fn push_digit(s: &mut String, d: u8)
    requires
        d < 10,
    ensures
        final(s)@ == old(s)@ + seq![digit(d as nat)],
{
    let text = if d == 0 {
        "0"
    } else if d == 1 {
        "1"
    } else if d == 2 {
        "2"
    } else if d == 3 {
        "3"
    } else if d == 4 {
        "4"
    } else if d == 5 {
        "5"
    } else if d == 6 {
        "6"
    } else if d == 7 {
        "7"
    } else if d == 8 {
        "8"
    } else {
        "9"
    };
    proof {
        reveal_strlit("0");
        reveal_strlit("1");
        reveal_strlit("2");
        reveal_strlit("3");
        reveal_strlit("4");
        reveal_strlit("5");
        reveal_strlit("6");
        reveal_strlit("7");
        reveal_strlit("8");
        reveal_strlit("9");
    }
    assert(text@ =~= seq![digit(d as nat)]);
    s.append(text);
}

/// Appends `n` in decimal to `s`.
pub fn push_decimal(s: &mut String, n: u8)
    ensures
        final(s)@ == old(s)@ + decimal(n as nat),
{
    let ghost start = s@;
    if n >= 100 {
        push_digit(s, n / 100);
    }
    if n >= 10 {
        push_digit(s, (n / 10) % 10);
    }
    push_digit(s, n % 10);
    proof {
        let m = n as nat;
        if m >= 100 {
            assert(decimal(m / 100) == seq![digit(m / 100)]);
            assert((m / 10) / 10 == m / 100);
            assert(decimal(m / 10) == decimal(m / 100) + seq![digit((m / 10) % 10)]);
        } else if m >= 10 {
            assert(decimal(m / 10) == seq![digit(m / 10)]);
            assert((m / 10) % 10 == m / 10);
        }
        assert(s@ =~= start + decimal(m));
    }
}

impl State {
    /// The line that shows `peg`, as in `"  Left: 3 2 1"`.
    pub fn print_peg(&self, peg: Peg) -> (r: String)
        ensures
            r@ == peg_line(peg, self@.tower(peg)),
    {
        let tower = self.get_tower(peg);
        let mut text = String::new();
        let mut i: usize = 0;
        while i < tower.len()
            invariant
                i <= tower.len(),
                tower@ == self@.tower(peg),
                text@ == tower_text(tower@.subrange(0, i as int)),
            decreases tower.len() - i,
        {
            if i > 0 {
                text.append(" ");
            }
            push_decimal(&mut text, tower[i].0);
            proof {
                reveal_strlit(" ");
                let next = tower@.subrange(0, i + 1);
                assert(next.drop_last() =~= tower@.subrange(0, i as int));
                assert(next.last() == tower@[i as int]);
            }
            i = i + 1;
        }
        assert(tower@.subrange(0, i as int) =~= tower@);
        let label = match peg {
            Peg::Left => "  Left",
            Peg::Center => "Center",
            Peg::Right => " Right",
        };
        let mut line = String::from_str(label);
        line.append(": ");
        line.append(text.as_str());
        line
    }

    /// The whole game as it is shown: the lines of `Left`, `Center` and
    /// `Right`, each ended by a newline.
    pub fn print(&self) -> (r: String)
        ensures
            r@ == peg_line(Peg::Left, self@.left) + "\n"@ + peg_line(Peg::Center, self@.center)
                + "\n"@ + peg_line(Peg::Right, self@.right) + "\n"@,
    {
        let mut out = self.print_peg(Peg::Left);
        out.append("\n");
        out.append(self.print_peg(Peg::Center).as_str());
        out.append("\n");
        out.append(self.print_peg(Peg::Right).as_str());
        out.append("\n");
        out
    }
}

} // verus!
