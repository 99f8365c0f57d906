//! Checking that a position's redundant parts agree: the bitboards with the piece array,
//! the occupancies with the bitboards, the en passant square, the kings and the key.
use vstd::prelude::*;
use crate::bits::{bit, popcount, set_bit, count_bits, lemma_bits_ext, lemma_bit_zero, lemma_bit_or, lemma_bit_and};
use crate::board::Board;
use crate::defs::{Color, Piece};

verus! {

/// The first disagreement `check_board` finds.
#[derive(Copy, Clone, PartialEq, Eq, Structural, Debug)]
pub enum BoardFault {
    /// This bitboard does not hold exactly the squares of the pieces of its code.
    BitboardUnsynced(usize),
    /// White's occupancy is not the union of white's bitboards.
    WhiteOccupancy,
    /// Black's occupancy is not the union of black's bitboards.
    BlackOccupancy,
    /// A square is in both sides' occupancies.
    OccupancyOverlap,
    /// The en passant square is off the board.
    EnPassantOutOfBounds,
    /// The en passant square is not on the rank the side to move captures onto.
    EnPassantWrongRank,
    /// White has this many kings, not one.
    WhiteKings(u32),
    /// Black has this many kings, not one.
    BlackKings(u32),
    /// The stored key is not the key of the position.
    PositionKey,
}

/// Bitboard `i` holds exactly the squares of the pieces whose code is `i`.
pub open spec fn bitboard_synced(b: Board, i: int) -> bool {
    forall|s: int| 0 <= s < 64 ==> #[trigger] bit(b.bitboards[i], s) == (b.pieces[s] != Piece::NONE && b.pieces[s].idx() == i)
}

pub open spec fn all_synced(b: Board) -> bool {
    forall|i: int| 0 <= i < 32 ==> #[trigger] bitboard_synced(b, i)
}

/// The union of the bitboards of side `c` (0 white, 1 black), pawns to dragons.
pub open spec fn side_union(b: Board, c: int) -> u64 {
    0u64 | b.bitboards[4 + c] | b.bitboards[8 + c] | b.bitboards[12 + c] | b.bitboards[16 + c]
        | b.bitboards[20 + c] | b.bitboards[24 + c] | b.bitboards[28 + c]
}

/// The en passant square, if any, is on the board and on the rank the side to move
/// captures onto (the sixth for white, the third for black).
pub open spec fn en_passant_fits(b: Board) -> bool {
    match b.en_passant {
        Some(e) => e < 64 && !((b.side == Color::WHITE && e / 8 != 5) || (b.side == Color::BLACK && e / 8 != 2)),
        None => true,
    }
}

/// The fault `check_board` reports, given that the checks before it passed.
pub open spec fn fault_holds(b: Board, f: BoardFault) -> bool {
    match f {
        BoardFault::BitboardUnsynced(i) => i < 32 && !bitboard_synced(b, i as int)
            && forall|j: int| 0 <= j < i ==> #[trigger] bitboard_synced(b, j),
        BoardFault::WhiteOccupancy => all_synced(b) && b.occupancies[0] != side_union(b, 0),
        BoardFault::BlackOccupancy => all_synced(b) && b.occupancies[0] == side_union(b, 0)
            && b.occupancies[1] != side_union(b, 1),
        BoardFault::OccupancyOverlap => all_synced(b) && b.occupancies[0] == side_union(b, 0)
            && b.occupancies[1] == side_union(b, 1) && b.occupancies[0] & b.occupancies[1] != 0,
        BoardFault::EnPassantOutOfBounds => occupancies_fit(b) && b.en_passant is Some && b.en_passant->0 >= 64,
        BoardFault::EnPassantWrongRank => occupancies_fit(b) && b.en_passant is Some && b.en_passant->0 < 64
            && !en_passant_fits(b),
        BoardFault::WhiteKings(n) => occupancies_fit(b) && en_passant_fits(b)
            && n == popcount(b.bitboards[Piece::WHITE_KING.idx() as int]) && n != 1,
        BoardFault::BlackKings(n) => occupancies_fit(b) && en_passant_fits(b)
            && popcount(b.bitboards[Piece::WHITE_KING.idx() as int]) == 1
            && n == popcount(b.bitboards[Piece::BLACK_KING.idx() as int]) && n != 1,
        BoardFault::PositionKey => occupancies_fit(b) && en_passant_fits(b) && kings_fit(b)
            && b.position_key != b.key_spec(),
    }
}

/// The bitboards agree with the pieces and the occupancies with the bitboards.
pub open spec fn occupancies_fit(b: Board) -> bool {
    &&& all_synced(b)
    &&& b.occupancies[0] == side_union(b, 0)
    &&& b.occupancies[1] == side_union(b, 1)
    &&& b.occupancies[0] & b.occupancies[1] == 0
}

/// Each side has exactly one king.
pub open spec fn kings_fit(b: Board) -> bool {
    &&& popcount(b.bitboards[Piece::WHITE_KING.idx() as int]) == 1
    &&& popcount(b.bitboards[Piece::BLACK_KING.idx() as int]) == 1
}

/// The bitboards built from the piece array.
fn bitboards_of_pieces(b: &Board) -> (r: [u64; 32])
    ensures
        forall|i: int, s: int| 0 <= i < 32 && 0 <= s < 64 ==> #[trigger] bit(r[i], s)
            == (b.pieces[s] != Piece::NONE && b.pieces[s].idx() == i),
{
    let mut r = [0u64; 32];
    proof {
        assert forall|i: int, s: int| 0 <= i < 32 && 0 <= s < 64 implies !#[trigger] bit(r[i], s) by {
            lemma_bit_zero(s as u64);
        }
    }
    let mut square: usize = 0;
    while square < 64
        invariant
            square <= 64,
            forall|i: int, s: int| 0 <= i < 32 && 0 <= s < 64 ==> #[trigger] bit(r[i], s)
                == (s < square && b.pieces[s] != Piece::NONE && b.pieces[s].idx() == i),
        decreases 64 - square,
    {
        let piece = b.pieces[square];
        if piece != Piece::NONE {
            let i = piece.index();
            let mut bb = r[i];
            set_bit(&mut bb, square);
            r[i] = bb;
        }
        square += 1;
    }
    r
}

impl Board {
    /// Checks that the redundant parts of the position agree, in this order: each
    /// bitboard with the piece array, each side's occupancy with its bitboards, the
    /// occupancies with each other, the en passant square, one king a side, and the
    /// key. The first disagreement is returned. (That each set bit of a bitboard has a
    /// piece of its code follows from the first check, so it is not checked apart.)
    pub fn check_board(&self) -> (r: Result<(), BoardFault>)
        requires
            self.keys.wf(),
            self.castle_permission < 16,
        ensures
            r is Ok <==> occupancies_fit(*self) && en_passant_fits(*self) && kings_fit(*self)
                && self.position_key == self.key_spec(),
            r matches Err(f) ==> fault_holds(*self, f),
    {
        let from_pieces = bitboards_of_pieces(self);
        let mut i: usize = 0;
        while i < 32
            invariant
                i <= 32,
                forall|k: int, s: int| 0 <= k < 32 && 0 <= s < 64 ==> #[trigger] bit(from_pieces[k], s)
                    == (self.pieces[s] != Piece::NONE && self.pieces[s].idx() == k),
                forall|j: int| 0 <= j < i ==> #[trigger] bitboard_synced(*self, j),
            decreases 32 - i,
        {
            proof {
                if bitboard_synced(*self, i as int) {
                    assert forall|s: int| 0 <= s < 64 implies bit(from_pieces[i as int], s) == bit(self.bitboards[i as int], s) by {}
                    lemma_bits_ext(from_pieces[i as int], self.bitboards[i as int]);
                }
            }
            if from_pieces[i] != self.bitboards[i] {
                return Err(BoardFault::BitboardUnsynced(i));
            }
            i += 1;
        }

        let white_occupancy = self.occupancies[0];
        let black_occupancy = self.occupancies[1];
        let mut computed_white: u64 = 0;
        let mut computed_black: u64 = 0;
        let mut k: usize = 4;
        while k < 32
            invariant
                4 <= k <= 32,
                k % 4 == 0,
                k == 4 ==> computed_white == 0u64 && computed_black == 0u64,
                k == 8 ==> computed_white == 0u64 | self.bitboards[4] && computed_black == 0u64 | self.bitboards[5],
                k == 12 ==> computed_white == 0u64 | self.bitboards[4] | self.bitboards[8]
                    && computed_black == 0u64 | self.bitboards[5] | self.bitboards[9],
                k == 16 ==> computed_white == 0u64 | self.bitboards[4] | self.bitboards[8] | self.bitboards[12]
                    && computed_black == 0u64 | self.bitboards[5] | self.bitboards[9] | self.bitboards[13],
                k == 20 ==> computed_white == 0u64 | self.bitboards[4] | self.bitboards[8] | self.bitboards[12]
                    | self.bitboards[16] && computed_black == 0u64 | self.bitboards[5] | self.bitboards[9]
                    | self.bitboards[13] | self.bitboards[17],
                k == 24 ==> computed_white == 0u64 | self.bitboards[4] | self.bitboards[8] | self.bitboards[12]
                    | self.bitboards[16] | self.bitboards[20] && computed_black == 0u64 | self.bitboards[5]
                    | self.bitboards[9] | self.bitboards[13] | self.bitboards[17] | self.bitboards[21],
                k == 28 ==> computed_white == 0u64 | self.bitboards[4] | self.bitboards[8] | self.bitboards[12]
                    | self.bitboards[16] | self.bitboards[20] | self.bitboards[24] && computed_black == 0u64
                    | self.bitboards[5] | self.bitboards[9] | self.bitboards[13] | self.bitboards[17]
                    | self.bitboards[21] | self.bitboards[25],
                k == 32 ==> computed_white == side_union(*self, 0) && computed_black == side_union(*self, 1),
            decreases 32 - k,
        {
            computed_white = computed_white | self.bitboards[k];
            computed_black = computed_black | self.bitboards[k + 1];
            k += 4;
        }
        if white_occupancy != computed_white {
            return Err(BoardFault::WhiteOccupancy);
        }
        if black_occupancy != computed_black {
            return Err(BoardFault::BlackOccupancy);
        }
        if (white_occupancy & black_occupancy) != 0 {
            return Err(BoardFault::OccupancyOverlap);
        }

        if let Some(ep_square) = self.en_passant {
            if ep_square >= 64 {
                return Err(BoardFault::EnPassantOutOfBounds);
            }
            let rank = ep_square / 8;
            if (self.side == Color::WHITE && rank != 5) || (self.side == Color::BLACK && rank != 2) {
                return Err(BoardFault::EnPassantWrongRank);
            }
        }

        let white_kings = count_bits(self.bitboards[Piece::WHITE_KING.index()]) as u32;
        let black_kings = count_bits(self.bitboards[Piece::BLACK_KING.index()]) as u32;
        if white_kings != 1 {
            return Err(BoardFault::WhiteKings(white_kings));
        }
        if black_kings != 1 {
            return Err(BoardFault::BlackKings(black_kings));
        }

        if self.generate_position_key() != self.position_key {
            return Err(BoardFault::PositionKey);
        }
        Ok(())
    }
}

/// Side `c`'s occupancy, square by square, is the union of its bitboards.
proof fn lemma_side_union_bits(b: Board, c: int, t: int)
    requires
        0 <= c < 2,
        0 <= t < 64,
    ensures
        bit(side_union(b, c), t) == (bit(b.bitboards[4 + c], t) || bit(b.bitboards[8 + c], t)
            || bit(b.bitboards[12 + c], t) || bit(b.bitboards[16 + c], t) || bit(b.bitboards[20 + c], t)
            || bit(b.bitboards[24 + c], t) || bit(b.bitboards[28 + c], t)),
{
    let tt = t as u64;
    lemma_bit_zero(tt);
    let u1 = 0u64 | b.bitboards[4 + c];
    lemma_bit_or(0u64, b.bitboards[4 + c], tt);
    let u2 = u1 | b.bitboards[8 + c];
    lemma_bit_or(u1, b.bitboards[8 + c], tt);
    let u3 = u2 | b.bitboards[12 + c];
    lemma_bit_or(u2, b.bitboards[12 + c], tt);
    let u4 = u3 | b.bitboards[16 + c];
    lemma_bit_or(u3, b.bitboards[16 + c], tt);
    let u5 = u4 | b.bitboards[20 + c];
    lemma_bit_or(u4, b.bitboards[20 + c], tt);
    let u6 = u5 | b.bitboards[24 + c];
    lemma_bit_or(u5, b.bitboards[24 + c], tt);
    lemma_bit_or(u6, b.bitboards[28 + c], tt);
}

/// A well-formed position passes the checks of the bitboards and the occupancies, and
/// its key is the key of the position.
pub proof fn lemma_well_formed_boards_fit(b: Board)
    requires
        b.wf(),
    ensures
        occupancies_fit(b),
        b.position_key == b.key_spec(),
{
    reveal(Board::bb_ok);
    assert forall|i: int| 0 <= i < 32 implies #[trigger] bitboard_synced(b, i) by {
        assert forall|s: int| 0 <= s < 64 implies #[trigger] bit(b.bitboards[i], s)
            == (b.pieces[s] != Piece::NONE && b.pieces[s].idx() == i) by {}
    }
    assert forall|t: int| 0 <= t < 64 implies bit(side_union(b, 0), t) == bit(b.occupancies[0], t) by {
        lemma_side_union_bits(b, 0, t);
        assert(bit(b.bitboards[4], t) == (b.pieces[t] != Piece::NONE && b.pieces[t].idx() == 4));
        assert(bit(b.bitboards[8], t) == (b.pieces[t] != Piece::NONE && b.pieces[t].idx() == 8));
        assert(bit(b.bitboards[12], t) == (b.pieces[t] != Piece::NONE && b.pieces[t].idx() == 12));
        assert(bit(b.bitboards[16], t) == (b.pieces[t] != Piece::NONE && b.pieces[t].idx() == 16));
        assert(bit(b.bitboards[20], t) == (b.pieces[t] != Piece::NONE && b.pieces[t].idx() == 20));
        assert(bit(b.bitboards[24], t) == (b.pieces[t] != Piece::NONE && b.pieces[t].idx() == 24));
        assert(bit(b.bitboards[28], t) == (b.pieces[t] != Piece::NONE && b.pieces[t].idx() == 28));
    }
    lemma_bits_ext(side_union(b, 0), b.occupancies[0]);
    assert forall|t: int| 0 <= t < 64 implies bit(side_union(b, 1), t) == bit(b.occupancies[1], t) by {
        lemma_side_union_bits(b, 1, t);
        assert(bit(b.bitboards[5], t) == (b.pieces[t] != Piece::NONE && b.pieces[t].idx() == 5));
        assert(bit(b.bitboards[9], t) == (b.pieces[t] != Piece::NONE && b.pieces[t].idx() == 9));
        assert(bit(b.bitboards[13], t) == (b.pieces[t] != Piece::NONE && b.pieces[t].idx() == 13));
        assert(bit(b.bitboards[17], t) == (b.pieces[t] != Piece::NONE && b.pieces[t].idx() == 17));
        assert(bit(b.bitboards[21], t) == (b.pieces[t] != Piece::NONE && b.pieces[t].idx() == 21));
        assert(bit(b.bitboards[25], t) == (b.pieces[t] != Piece::NONE && b.pieces[t].idx() == 25));
        assert(bit(b.bitboards[29], t) == (b.pieces[t] != Piece::NONE && b.pieces[t].idx() == 29));
    }
    lemma_bits_ext(side_union(b, 1), b.occupancies[1]);
    assert forall|t: int| 0 <= t < 64 implies bit(b.occupancies[0] & b.occupancies[1], t) == bit(0u64, t) by {
        lemma_bit_and(b.occupancies[0], b.occupancies[1], t as u64);
        lemma_bit_zero(t as u64);
    }
    lemma_bits_ext(b.occupancies[0] & b.occupancies[1], 0u64);
}

} // verus!
