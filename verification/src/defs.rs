//! Colours, piece types and pieces, with the integer encodings the rest of the
//! engine relies on (a piece's index is its type shifted left by two, or'd with
//! its colour).
use vstd::prelude::*;

verus! {

pub const WHITE_KING_CASTLE: u8 = 1;
pub const WHITE_QUEEN_CASTLE: u8 = 2;
pub const BLACK_KING_CASTLE: u8 = 4;
pub const BLACK_QUEEN_CASTLE: u8 = 8;

/// The side a piece belongs to; `BOTH` indexes the union occupancy.
#[allow(non_camel_case_types)]
#[derive(Copy, Clone, PartialEq, Eq, Structural, Debug)]
pub enum Color {
    WHITE,
    BLACK,
    BOTH,
    EITHER,
}

impl Color {
    pub open spec fn idx(self) -> nat {
        match self {
            Color::WHITE => 0,
            Color::BLACK => 1,
            Color::BOTH => 2,
            Color::EITHER => 3,
        }
    }

    pub open spec fn flip(self) -> Color {
        match self {
            Color::WHITE => Color::BLACK,
            Color::BLACK => Color::WHITE,
            Color::BOTH => Color::EITHER,
            Color::EITHER => Color::BOTH,
        }
    }

    /// White or black: a side that can move.
    pub open spec fn is_side(self) -> bool {
        self == Color::WHITE || self == Color::BLACK
    }

    pub fn index(&self) -> (r: usize)
        ensures
            r == self.idx(),
            r < 4,
    {
        match self {
            Color::WHITE => 0,
            Color::BLACK => 1,
            Color::BOTH => 2,
            Color::EITHER => 3,
        }
    }

    /// Flips the lowest bit of the encoding: white and black swap, as do both and either.
    pub fn opposite(&self) -> (c: Color)
        ensures
            c == self.flip(),
            c.idx() == (self.idx() as u8 ^ 1u8) as nat,
    {
        proof {
            assert(0u8 ^ 1u8 == 1u8 && 1u8 ^ 1u8 == 0u8 && 2u8 ^ 1u8 == 3u8 && 3u8 ^ 1u8 == 2u8) by (bit_vector);
        }
        match self {
            Color::WHITE => Color::BLACK,
            Color::BLACK => Color::WHITE,
            Color::BOTH => Color::EITHER,
            Color::EITHER => Color::BOTH,
        }
    }
}

/// The kind of a piece, without its colour.
#[allow(non_camel_case_types)]
#[derive(Copy, Clone, PartialEq, Eq, Structural, Debug)]
pub enum PieceType {
    NONE,
    PAWN,
    KNIGHT,
    BISHOP,
    ROOK,
    QUEEN,
    KING,
    DRAGON,
}

pub const PIECE_TYPE_COUNT: usize = 8;

impl PieceType {
    pub open spec fn idx(self) -> nat {
        match self {
            PieceType::NONE => 0,
            PieceType::PAWN => 1,
            PieceType::KNIGHT => 2,
            PieceType::BISHOP => 3,
            PieceType::ROOK => 4,
            PieceType::QUEEN => 5,
            PieceType::KING => 6,
            PieceType::DRAGON => 7,
        }
    }

    pub open spec fn from_idx(i: nat) -> PieceType {
        if i == 1 {
            PieceType::PAWN
        } else if i == 2 {
            PieceType::KNIGHT
        } else if i == 3 {
            PieceType::BISHOP
        } else if i == 4 {
            PieceType::ROOK
        } else if i == 5 {
            PieceType::QUEEN
        } else if i == 6 {
            PieceType::KING
        } else if i == 7 {
            PieceType::DRAGON
        } else {
            PieceType::NONE
        }
    }

    pub fn index(&self) -> (r: usize)
        ensures
            r == self.idx(),
            r < 8,
    {
        match self {
            PieceType::NONE => 0,
            PieceType::PAWN => 1,
            PieceType::KNIGHT => 2,
            PieceType::BISHOP => 3,
            PieceType::ROOK => 4,
            PieceType::QUEEN => 5,
            PieceType::KING => 6,
            PieceType::DRAGON => 7,
        }
    }

    /// Index of the bitboard that holds the pieces of this type and `side`.
    pub fn bb_index(&self, side: Color) -> (r: usize)
        ensures
            r == self.idx() * 4 + side.idx(),
            r < 32,
    {
        self.index() * 4 + side.index()
    }
}

/// A coloured piece (or `NONE` for an empty square).
#[allow(non_camel_case_types)]
#[derive(Copy, Clone, PartialEq, Eq, Structural, Debug)]
pub enum Piece {
    NONE,
    WHITE_PAWN,
    BLACK_PAWN,
    WHITE_KNIGHT,
    BLACK_KNIGHT,
    WHITE_BISHOP,
    BLACK_BISHOP,
    WHITE_ROOK,
    BLACK_ROOK,
    WHITE_QUEEN,
    BLACK_QUEEN,
    WHITE_KING,
    BLACK_KING,
    WHITE_DRAGON,
    BLACK_DRAGON,
}

pub const PIECE_COUNT: usize = 32;

impl Piece {
    pub open spec fn ptype(self) -> PieceType {
        match self {
            Piece::NONE => PieceType::NONE,
            Piece::WHITE_PAWN | Piece::BLACK_PAWN => PieceType::PAWN,
            Piece::WHITE_KNIGHT | Piece::BLACK_KNIGHT => PieceType::KNIGHT,
            Piece::WHITE_BISHOP | Piece::BLACK_BISHOP => PieceType::BISHOP,
            Piece::WHITE_ROOK | Piece::BLACK_ROOK => PieceType::ROOK,
            Piece::WHITE_QUEEN | Piece::BLACK_QUEEN => PieceType::QUEEN,
            Piece::WHITE_KING | Piece::BLACK_KING => PieceType::KING,
            Piece::WHITE_DRAGON | Piece::BLACK_DRAGON => PieceType::DRAGON,
        }
    }

    /// The colour of a piece; the empty square has colour code 0, as white does.
    pub open spec fn pcolor(self) -> Color {
        match self {
            Piece::BLACK_PAWN | Piece::BLACK_KNIGHT | Piece::BLACK_BISHOP | Piece::BLACK_ROOK
            | Piece::BLACK_QUEEN | Piece::BLACK_KING | Piece::BLACK_DRAGON => Color::BLACK,
            _ => Color::WHITE,
        }
    }

    /// The encoding: type times four plus colour.
    pub open spec fn idx(self) -> nat {
        self.ptype().idx() * 4 + self.pcolor().idx()
    }

    /// The piece whose encoding is `i`, and the empty square for codes that no piece has.
    pub open spec fn from_idx(i: nat) -> Piece {
        if i == 4 {
            Piece::WHITE_PAWN
        } else if i == 5 {
            Piece::BLACK_PAWN
        } else if i == 8 {
            Piece::WHITE_KNIGHT
        } else if i == 9 {
            Piece::BLACK_KNIGHT
        } else if i == 12 {
            Piece::WHITE_BISHOP
        } else if i == 13 {
            Piece::BLACK_BISHOP
        } else if i == 16 {
            Piece::WHITE_ROOK
        } else if i == 17 {
            Piece::BLACK_ROOK
        } else if i == 20 {
            Piece::WHITE_QUEEN
        } else if i == 21 {
            Piece::BLACK_QUEEN
        } else if i == 24 {
            Piece::WHITE_KING
        } else if i == 25 {
            Piece::BLACK_KING
        } else if i == 28 {
            Piece::WHITE_DRAGON
        } else if i == 29 {
            Piece::BLACK_DRAGON
        } else {
            Piece::NONE
        }
    }

    pub open spec fn of(pt: PieceType, c: Color) -> Piece {
        Piece::from_idx(pt.idx() * 4 + c.idx())
    }

    pub fn index(&self) -> (r: usize)
        ensures
            r == self.idx(),
            r < 32,
    {
        match self {
            Piece::NONE => 0,
            Piece::WHITE_PAWN => 4,
            Piece::BLACK_PAWN => 5,
            Piece::WHITE_KNIGHT => 8,
            Piece::BLACK_KNIGHT => 9,
            Piece::WHITE_BISHOP => 12,
            Piece::BLACK_BISHOP => 13,
            Piece::WHITE_ROOK => 16,
            Piece::BLACK_ROOK => 17,
            Piece::WHITE_QUEEN => 20,
            Piece::BLACK_QUEEN => 21,
            Piece::WHITE_KING => 24,
            Piece::BLACK_KING => 25,
            Piece::WHITE_DRAGON => 28,
            Piece::BLACK_DRAGON => 29,
        }
    }

    /// Decodes a piece index; codes that no piece has give the empty square.
    pub fn from_index(i: usize) -> (p: Piece)
        ensures
            p == Piece::from_idx(i as nat),
    {
        if i == 4 {
            Piece::WHITE_PAWN
        } else if i == 5 {
            Piece::BLACK_PAWN
        } else if i == 8 {
            Piece::WHITE_KNIGHT
        } else if i == 9 {
            Piece::BLACK_KNIGHT
        } else if i == 12 {
            Piece::WHITE_BISHOP
        } else if i == 13 {
            Piece::BLACK_BISHOP
        } else if i == 16 {
            Piece::WHITE_ROOK
        } else if i == 17 {
            Piece::BLACK_ROOK
        } else if i == 20 {
            Piece::WHITE_QUEEN
        } else if i == 21 {
            Piece::BLACK_QUEEN
        } else if i == 24 {
            Piece::WHITE_KING
        } else if i == 25 {
            Piece::BLACK_KING
        } else if i == 28 {
            Piece::WHITE_DRAGON
        } else if i == 29 {
            Piece::BLACK_DRAGON
        } else {
            Piece::NONE
        }
    }

    /// Every piece value, the empty square first.
    pub fn iter() -> (v: Vec<Piece>)
        ensures
            v.len() == 15,
            forall|i: int| 0 <= i < 15 ==> (#[trigger] v@[i]).idx() == (if i == 0 { 0 } else { (i + 1) / 2 * 4 + (i + 1) % 2 }),
    {
        let v = vec![
            Piece::NONE,
            Piece::WHITE_PAWN,
            Piece::BLACK_PAWN,
            Piece::WHITE_KNIGHT,
            Piece::BLACK_KNIGHT,
            Piece::WHITE_BISHOP,
            Piece::BLACK_BISHOP,
            Piece::WHITE_ROOK,
            Piece::BLACK_ROOK,
            Piece::WHITE_QUEEN,
            Piece::BLACK_QUEEN,
            Piece::WHITE_KING,
            Piece::BLACK_KING,
            Piece::WHITE_DRAGON,
            Piece::BLACK_DRAGON,
        ];
        v
    }

    /// The type is the encoding shifted right by two.
    pub fn piece_type(&self) -> (t: PieceType)
        ensures
            t == self.ptype(),
            t.idx() == self.idx() / 4,
    {
        match self {
            Piece::NONE => PieceType::NONE,
            Piece::WHITE_PAWN | Piece::BLACK_PAWN => PieceType::PAWN,
            Piece::WHITE_KNIGHT | Piece::BLACK_KNIGHT => PieceType::KNIGHT,
            Piece::WHITE_BISHOP | Piece::BLACK_BISHOP => PieceType::BISHOP,
            Piece::WHITE_ROOK | Piece::BLACK_ROOK => PieceType::ROOK,
            Piece::WHITE_QUEEN | Piece::BLACK_QUEEN => PieceType::QUEEN,
            Piece::WHITE_KING | Piece::BLACK_KING => PieceType::KING,
            Piece::WHITE_DRAGON | Piece::BLACK_DRAGON => PieceType::DRAGON,
        }
    }

    /// The colour is the encoding's two low bits.
    pub fn color(&self) -> (c: Color)
        ensures
            c == self.pcolor(),
            c.idx() == self.idx() % 4,
    {
        match self {
            Piece::BLACK_PAWN | Piece::BLACK_KNIGHT | Piece::BLACK_BISHOP | Piece::BLACK_ROOK
            | Piece::BLACK_QUEEN | Piece::BLACK_KING | Piece::BLACK_DRAGON => Color::BLACK,
            _ => Color::WHITE,
        }
    }

    /// The piece of the given type and side; the empty type with white gives the empty
    /// square, whose encoding is 0. (No value of `Piece` has the encoding of the empty type
    /// with black, or of any type with `BOTH` or `EITHER`.)
    pub fn make(piece_type: PieceType, color: Color) -> (p: Piece)
        requires
            color.is_side(),
            piece_type == PieceType::NONE ==> color == Color::WHITE,
        ensures
            p == Piece::of(piece_type, color),
            p.idx() == piece_type.idx() * 4 + color.idx(),
            p.ptype() == piece_type,
            p.pcolor() == color,
    {
        let white = color == Color::WHITE;
        match piece_type {
            PieceType::NONE => Piece::NONE,
            PieceType::PAWN => if white { Piece::WHITE_PAWN } else { Piece::BLACK_PAWN },
            PieceType::KNIGHT => if white { Piece::WHITE_KNIGHT } else { Piece::BLACK_KNIGHT },
            PieceType::BISHOP => if white { Piece::WHITE_BISHOP } else { Piece::BLACK_BISHOP },
            PieceType::ROOK => if white { Piece::WHITE_ROOK } else { Piece::BLACK_ROOK },
            PieceType::QUEEN => if white { Piece::WHITE_QUEEN } else { Piece::BLACK_QUEEN },
            PieceType::KING => if white { Piece::WHITE_KING } else { Piece::BLACK_KING },
            PieceType::DRAGON => if white { Piece::WHITE_DRAGON } else { Piece::BLACK_DRAGON },
        }
    }
}

/// Making a piece from its own type and colour gives the piece back, the empty square
/// included.
pub proof fn lemma_make_own_parts(p: Piece)
    ensures
        p.pcolor().is_side(),
        p.ptype() == PieceType::NONE ==> p.pcolor() == Color::WHITE,
        Piece::of(p.ptype(), p.pcolor()) == p,
{
}

/// The bitboard index of a type and side is the encoding of the piece made of them.
pub proof fn lemma_bb_index_is_piece(pt: PieceType, side: Color)
    requires
        side.is_side(),
        pt == PieceType::NONE ==> side == Color::WHITE,
    ensures
        Piece::of(pt, side).idx() == pt.idx() * 4 + side.idx(),
{
}

/// Decoding an index gives back the piece it was taken from.
pub proof fn lemma_piece_index_roundtrip(p: Piece)
    ensures
        Piece::from_idx(p.idx()) == p,
        p.idx() < 32,
        p == Piece::NONE <==> p.idx() == 0,
{
}

pub enum Files {
    FileA,
    FileB,
    FileC,
    FileD,
    FileE,
    FileF,
    FileG,
    FileH,
}

pub enum Ranks {
    Rank1,
    Rank2,
    Rank3,
    Rank4,
    Rank5,
    Rank6,
    Rank7,
    Rank8,
}

/// The square index of a file and rank, a1 = 0 and h8 = 63.
pub fn fr2sq(file: usize, rank: usize) -> (sq: usize)
    requires
        rank * 8 + file <= usize::MAX,
    ensures
        sq == rank * 8 + file,
{
    (rank * 8) + file
}

/// The file (0 for a, 7 for h) of each square.
pub fn file_of(square: usize) -> (f: usize)
    requires
        square < 64,
    ensures
        f == square % 8,
        f < 8,
{
    square % 8
}

/// The rank (0 for the first, 7 for the eighth) of each square.
pub fn rank_of(square: usize) -> (r: usize)
    requires
        square < 64,
    ensures
        r == square / 8,
        r < 8,
{
    square / 8
}

} // verus!
