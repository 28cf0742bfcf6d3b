use vstd::prelude::*;
use vstd::string::StringExecFns;

verus! {

/// What a cell of the grid holds.
#[derive(Debug, Clone, Copy, PartialEq, Eq, Structural)]
pub enum Tile {
    /// A mine.
    Bomb,
    /// A cell without a mine, next to this many mines (from 1 to 8).
    BombNeighbor(u8),
    /// A cell without a mine and with no mine around it.
    Empty,
}

/// The character of a decimal digit.
pub open spec fn digit_char(d: nat) -> char {
    if d == 0 {
        '0'
    } else if d == 1 {
        '1'
    } else if d == 2 {
        '2'
    } else if d == 3 {
        '3'
    } else if d == 4 {
        '4'
    } else if d == 5 {
        '5'
    } else if d == 6 {
        '6'
    } else if d == 7 {
        '7'
    } else if d == 8 {
        '8'
    } else {
        '9'
    }
}

/// `n` written in decimal, without leading zeros.
pub open spec fn decimal(n: nat) -> Seq<char>
    decreases n,
{
    if n < 10 {
        seq![digit_char(n)]
    } else {
        decimal(n / 10).push(digit_char(n % 10))
    }
}

fn digit_str(d: u16) -> (r: &'static str)
    requires
        d < 10,
    ensures
        r@ == seq![digit_char(d as nat)],
{
    proof {
        reveal_strlit("0");
        reveal_strlit("1");
        reveal_strlit("2");
        reveal_strlit("3");
        reveal_strlit("4");
        reveal_strlit("5");
        reveal_strlit("6");
        reveal_strlit("7");
        reveal_strlit("8");
        reveal_strlit("9");
    }
    match d {
        0 => "0",
        1 => "1",
        2 => "2",
        3 => "3",
        4 => "4",
        5 => "5",
        6 => "6",
        7 => "7",
        8 => "8",
        _ => "9",
    }
}

/// Appends `n` written in decimal.
pub fn push_decimal(s: &mut String, n: u16)
    ensures
        final(s)@ == old(s)@ + decimal(n as nat),
    decreases n,
{
    if n >= 10 {
        push_decimal(s, n / 10);
    }
    s.append(digit_str(n % 10));
    proof {
        assert(old(s)@ + decimal(n as nat) =~= (if n >= 10 { old(s)@ + decimal((n / 10) as nat) } else { old(s)@ }) + seq![digit_char((n % 10) as nat)]);
    }
}

impl Tile {
    /// How the cell is written in a text picture of the map: `*` for a mine, the
    /// count for a cell next to mines, a space for an empty cell.
    pub open spec fn text(self) -> Seq<char> {
        match self {
            Tile::Bomb => seq!['*'],
            Tile::BombNeighbor(n) => decimal(n as nat),
            Tile::Empty => seq![' '],
        }
    }

    pub fn console_output(&self) -> (r: String)
        ensures
            r@ == self.text(),
    {
        let mut r = String::new();
        match self {
            Tile::Bomb => {
                r.append("*");
                proof {
                    reveal_strlit("*");
                }
            },
            Tile::BombNeighbor(n) => push_decimal(&mut r, *n as u16),
            Tile::Empty => {
                r.append(" ");
                proof {
                    reveal_strlit(" ");
                }
            },
        }
        r
    }

    pub fn is_bomb(&self) -> (r: bool)
        ensures
            r == (*self is Bomb),
    {
        matches!(self, Tile::Bomb)
    }

    pub fn is_empty(&self) -> (r: bool)
        ensures
            r == (*self is Empty),
    {
        matches!(self, Tile::Empty)
    }
}

} // verus!
