//! The supporting value types of the engine: players, board coordinates and
//! the eight scan directions.

use vstd::prelude::*;

verus! {

/// One of the two sides. `Black` is rendered as `X`, `White` as `O`.
#[derive(Clone, Copy, Debug, PartialEq, Eq, Structural)]
pub enum Player {
    Black,
    White,
}

impl Player {
    /// The other side.
    pub open spec fn opp(self) -> Player {
        match self {
            Player::Black => Player::White,
            Player::White => Player::Black,
        }
    }

    pub fn opponent(self) -> (r: Player)
        ensures
            r == self.opp(),
    {
        match self {
            Player::Black => Player::White,
            Player::White => Player::Black,
        }
    }

    /// The glyph used for this side's discs when a board is rendered.
    pub fn to_char(self) -> (c: char)
        ensures
            c == (match self {
                Player::Black => 'X',
                Player::White => 'O',
            }),
    {
        match self {
            Player::Black => 'X',
            Player::White => 'O',
        }
    }
}

/// One of the 8 non-zero step vectors with components in {-1, 0, 1}.
#[derive(Clone, Copy, Debug)]
pub struct Direction {
    pub dx: i8,
    pub dy: i8,
}

impl Direction {
    /// A unit direction: both components in {-1, 0, 1} and not both zero.
    pub open spec fn is_unit(self) -> bool {
        &&& -1 <= self.dx <= 1
        &&& -1 <= self.dy <= 1
        &&& !(self.dx == 0 && self.dy == 0)
    }
}

/// Addition on `i8` that clamps at the type's bounds instead of wrapping, so
/// that stepping off the nominal board always produces a detectably
/// out-of-range coordinate.
pub open spec fn sat_add(a: int, b: int) -> int {
    if a + b > 127 {
        127
    } else if a + b < -128 {
        -128
    } else {
        a + b
    }
}

fn sat_add_i8(a: i8, b: i8) -> (r: i8)
    ensures
        r as int == sat_add(a as int, b as int),
{
    let s: i16 = a as i16 + b as i16;
    if s > 127 {
        127
    } else if s < -128 {
        -128
    } else {
        s as i8
    }
}

/// A cell coordinate. Values may lie outside [0, 8) transiently (one step past
/// a board edge); `is_valid` must be checked before a position is used as an
/// index.
#[derive(Clone, Copy, Debug, PartialEq, Eq, Structural)]
pub struct Position {
    pub x: i8,
    pub y: i8,
}

impl Position {
    /// The column as a mathematical integer.
    pub open spec fn xi(self) -> int {
        self.x as int
    }

    /// The row as a mathematical integer.
    pub open spec fn yi(self) -> int {
        self.y as int
    }

    /// Both coordinates lie on the 8x8 board.
    pub open spec fn valid(self) -> bool {
        &&& 0 <= self.x < 8
        &&& 0 <= self.y < 8
    }

    pub fn is_valid(self) -> (r: bool)
        ensures
            r == self.valid(),
    {
        self.x >= 0 && self.x < 8 && self.y >= 0 && self.y < 8
    }

    /// One step in direction `d`, with saturating coordinate arithmetic.
    pub fn neighbor(self, d: Direction) -> (r: Position)
        ensures
            r.xi() == sat_add(self.xi(), d.dx as int),
            r.yi() == sat_add(self.yi(), d.dy as int),
    {
        Position { x: sat_add_i8(self.x, d.dx), y: sat_add_i8(self.y, d.dy) }
    }
}

} // verus!
