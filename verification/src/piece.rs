//! Pieces and their pure attributes.

use vstd::prelude::*;

verus! {

/// A square's content: empty, or one of the six piece kinds of either color.
#[derive(Debug, Clone, Copy, PartialEq, Eq, Structural)]
pub enum Piece {
    Empty,
    Bpawn,
    Wpawn,
    Bknight,
    Wknight,
    Bbishop,
    Wbishop,
    Brook,
    Wrook,
    Bqueen,
    Wqueen,
    Bking,
    Wking,
}

pub open spec fn is_white_p(p: Piece) -> bool {
    p == Piece::Wpawn || p == Piece::Wknight || p == Piece::Wbishop || p == Piece::Wrook || p
        == Piece::Wqueen || p == Piece::Wking
}

pub open spec fn is_king(p: Piece) -> bool {
    p == Piece::Wking || p == Piece::Bking
}

/// The sliding piece moves along rook directions.
pub open spec fn is_rooklike(p: Piece) -> bool {
    p == Piece::Wrook || p == Piece::Brook || p == Piece::Wqueen || p == Piece::Bqueen
}

/// The sliding piece moves along bishop directions.
pub open spec fn is_bishoplike(p: Piece) -> bool {
    p == Piece::Wbishop || p == Piece::Bbishop || p == Piece::Wqueen || p == Piece::Bqueen
}

pub open spec fn is_slider(p: Piece) -> bool {
    is_rooklike(p) || is_bishoplike(p)
}

/// The king of the side opposing `white`.
pub open spec fn enemy_king(white: bool) -> Piece {
    if white {
        Piece::Bking
    } else {
        Piece::Wking
    }
}

/// Signed material value: positive for white, negative for black, king 0.
pub open spec fn piece_value(p: Piece) -> int {
    match p {
        Piece::Wpawn => 100,
        Piece::Bpawn => -100,
        Piece::Wknight => 300,
        Piece::Bknight => -300,
        Piece::Wbishop => 320,
        Piece::Bbishop => -320,
        Piece::Wrook => 500,
        Piece::Brook => -500,
        Piece::Wqueen => 900,
        Piece::Bqueen => -900,
        _ => 0,
    }
}

/// `other` sits on a square that `self` may occupy: empty or an enemy piece.
/// An empty mover is treated as opposed to everything, as no move starts from
/// an empty square.
pub open spec fn opponent_or_empty(target: Piece, mover: Piece) -> bool {
    target == Piece::Empty || mover == Piece::Empty || is_white_p(target) != is_white_p(mover)
}

/// Both squares hold pieces and the colors differ.
pub open spec fn opponent(a: Piece, b: Piece) -> bool {
    a != Piece::Empty && b != Piece::Empty && is_white_p(a) != is_white_p(b)
}

impl Piece {
    pub fn is_white(&self) -> (r: bool)
        ensures
            r == is_white_p(*self),
    {
        matches!(
            self,
            Piece::Wpawn
                | Piece::Wknight
                | Piece::Wbishop
                | Piece::Wrook
                | Piece::Wqueen
                | Piece::Wking,
        )
    }

    /// Signed material value of the piece (white positive, black negative).
    pub fn evaluate(&self) -> (r: i32)
        ensures
            r == piece_value(*self),
    {
        match self {
            Piece::Wpawn => 100,
            Piece::Bpawn => -100,
            Piece::Wknight => 300,
            Piece::Bknight => -300,
            Piece::Wbishop => 320,
            Piece::Bbishop => -320,
            Piece::Wrook => 500,
            Piece::Brook => -500,
            Piece::Wqueen => 900,
            Piece::Bqueen => -900,
            _ => 0,
        }
    }

    pub fn is_opponent_or_empty(&self, opp: Piece) -> (r: bool)
        ensures
            r == opponent_or_empty(*self, opp),
    {
        if self == &Piece::Empty {
            return true;
        }
        match opp {
            Piece::Empty => true,
            piece => piece.is_white() != self.is_white(),
        }
    }

    pub fn is_opponent(&self, other: Piece) -> (r: bool)
        ensures
            r == opponent(*self, other),
    {
        if self == &Piece::Empty || other == Piece::Empty {
            return false;
        }
        self.is_white() != other.is_white()
    }
}

} // verus!
