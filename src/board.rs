use vstd::prelude::*;

verus! {

pub const NUM_COLORS: usize = 2;

pub const NUM_PIECES: usize = 6;

pub const NUM_SQUARES: usize = 64;

pub const NUM_FILES: usize = 8;

pub const NUM_CASTLE_RIGHTS: usize = 4;

#[derive(Clone, Copy, Debug, PartialEq, Eq, Structural)]
pub enum Color {
    White,
    Black,
}

impl Color {
    pub open spec fn index(self) -> int {
        match self {
            Color::White => 0,
            Color::Black => 1,
        }
    }

    pub fn to_index(self) -> (r: usize)
        ensures
            r as int == self.index(),
            r < NUM_COLORS,
    {
        match self {
            Color::White => 0,
            Color::Black => 1,
        }
    }
}

#[derive(Clone, Copy, Debug, PartialEq, Eq, Structural)]
pub enum Piece {
    Pawn,
    Knight,
    Bishop,
    Rook,
    Queen,
    King,
}

impl Piece {
    pub open spec fn index(self) -> int {
        match self {
            Piece::Pawn => 0,
            Piece::Knight => 1,
            Piece::Bishop => 2,
            Piece::Rook => 3,
            Piece::Queen => 4,
            Piece::King => 5,
        }
    }

    pub fn to_index(self) -> (r: usize)
        ensures
            r as int == self.index(),
            r < NUM_PIECES,
    {
        match self {
            Piece::Pawn => 0,
            Piece::Knight => 1,
            Piece::Bishop => 2,
            Piece::Rook => 3,
            Piece::Queen => 4,
            Piece::King => 5,
        }
    }
}

/// Which castling moves a side still has.
#[derive(Clone, Copy, Debug, PartialEq, Eq, Structural)]
pub enum CastleRights {
    NoRights,
    KingSide,
    QueenSide,
    Both,
}

impl CastleRights {
    pub open spec fn index(self) -> int {
        match self {
            CastleRights::NoRights => 0,
            CastleRights::KingSide => 1,
            CastleRights::QueenSide => 2,
            CastleRights::Both => 3,
        }
    }

    pub fn to_index(self) -> (r: usize)
        ensures
            r as int == self.index(),
            r < NUM_CASTLE_RIGHTS,
    {
        match self {
            CastleRights::NoRights => 0,
            CastleRights::KingSide => 1,
            CastleRights::QueenSide => 2,
            CastleRights::Both => 3,
        }
    }
}

/// A square, a1 = 0 through h8 = 63 (rank * 8 + file).
#[derive(Clone, Copy, Debug, PartialEq, Eq, Structural)]
pub struct Square(pub u8);

impl Square {
    pub fn to_index(self) -> (r: usize)
        ensures
            r == self.0,
    {
        self.0 as usize
    }
}

/// A file, a = 0 through h = 7.
#[derive(Clone, Copy, Debug, PartialEq, Eq, Structural)]
pub struct File(pub u8);

impl File {
    pub fn to_index(self) -> (r: usize)
        ensures
            r == self.0,
    {
        self.0 as usize
    }
}

} // verus!
