//! The position: a piece on each square, one bitboard per piece code, the occupancy of
//! each side, the side to move, castling rights, en passant square, counters, the
//! history of played moves, and the key that hashes it all.
use vstd::prelude::*;
use crate::bits::{bit, set_bit, clear_bit, lemma_bit_xor, lemma_bit_or, lemma_bit_single, lemma_bit_zero};
use crate::defs::{Color, Piece, PieceType};
use crate::movegen::Move;
use crate::zobrist::{
    ZobristKeys, piece_term, pieces_hash, side_term, ep_term, castle_term, position_key_of,
    lemma_pieces_hash_update, lemma_xor_swap,
};

verus! {

pub const MAX_GAME_MOVES: usize = 2048;
pub const MAX_DEPTH: usize = 64;

/// What is needed to take back a move: the move and the state it overwrote.
#[derive(Copy, Clone, PartialEq, Eq, Structural, Debug)]
pub struct Undo {
    pub mv: Move,
    pub castle_permission: u8,
    pub en_passant: Option<u8>,
    pub fifty_move: u8,
    pub position_key: u64,
}

impl Default for Undo {
    fn default() -> (u: Self)
        ensures
            u.mv.0 == 0,
            u.castle_permission == 0,
            u.en_passant.is_none(),
            u.fifty_move == 0,
            u.position_key == 0,
    {
        Undo { mv: Move(0), castle_permission: 0, en_passant: None, fifty_move: 0, position_key: 0 }
    }
}

/// A past position as make/take see it: where the pieces stood and who moved.
pub type PastPosition = (Seq<Piece>, Color);

pub struct Board {
    pub occupancies: [u64; 3],
    pub bitboards: [u64; 32],
    pub king_square: [usize; 2],
    pub pieces: [Piece; 64],
    pub side: Color,
    pub en_passant: Option<u8>,
    pub fifty_move: u8,
    pub ply: u8,
    pub history_ply: usize,
    pub castle_permission: u8,
    pub position_key: u64,
    pub history: Vec<Undo>,
    /// Quiet moves that raised alpha, scored per (piece, target square).
    pub history_heuristic: [[i16; 64]; 32],
    /// Per ply, the last two quiet moves that caused a beta cut-off.
    pub killers: [[Option<Move>; 2]; 64],
    pub keys: ZobristKeys,
    /// The positions before each move of `history`, oldest first.
    pub past: Ghost<Seq<PastPosition>>,
}

/// Whether `p` is the king of side `c` (0 white, 1 black).
pub open spec fn king_of(p: Piece, c: int) -> bool {
    (c == 0 && p == Piece::WHITE_KING) || (c == 1 && p == Piece::BLACK_KING)
}

impl Board {
    /// The bitboards and occupancies say exactly what the piece array says.
    #[verifier::opaque]
    pub open spec fn bb_ok(&self) -> bool {
        &&& forall|p: int, s: int|
            0 <= p < 32 && 0 <= s < 64 ==> (#[trigger] bit(self.bitboards[p], s) <==> (
            self.pieces[s] != Piece::NONE && self.pieces[s].idx() == p))
        &&& forall|s: int|
            0 <= s < 64 ==> (#[trigger] bit(self.occupancies[0], s) <==> (self.pieces[s] != Piece::NONE
                && self.pieces[s].pcolor() == Color::WHITE))
        &&& forall|s: int|
            0 <= s < 64 ==> (#[trigger] bit(self.occupancies[1], s) <==> (self.pieces[s] != Piece::NONE
                && self.pieces[s].pcolor() == Color::BLACK))
        &&& forall|s: int|
            0 <= s < 64 ==> (#[trigger] bit(self.occupancies[2], s) <==> self.pieces[s] != Piece::NONE)
    }

    /// Each side has at most one king, and `king_square` points at it.
    pub open spec fn king_ok(&self) -> bool {
        &&& self.king_square[0] < 64
        &&& self.king_square[1] < 64
        &&& forall|c: int, s: int|
            0 <= c < 2 && 0 <= s < 64 && #[trigger] king_of(self.pieces[s], c) ==> self.king_square[c]
                == s
    }

    pub open spec fn key_spec(&self) -> u64 {
        position_key_of(self.keys, self.pieces@, self.side, self.en_passant, self.castle_permission)
    }

    /// The stored key is the key of the position.
    pub open spec fn key_ok(&self) -> bool {
        self.position_key == self.key_spec()
    }

    pub open spec fn misc_ok(&self) -> bool {
        &&& self.keys.wf()
        &&& self.castle_permission < 16
        &&& (self.en_passant matches Some(e) ==> e < 64)
        &&& self.history.len() == MAX_GAME_MOVES
        &&& self.history_ply <= MAX_GAME_MOVES
        &&& self.fifty_move <= self.history_ply
    }

    /// Whether the side to move has its king on the board.
    pub open spec fn has_king(&self, c: int) -> bool {
        exists|s: int| 0 <= s < 64 && #[trigger] king_of(self.pieces[s], c)
    }

    /// Everything but the record of past positions, which `makemove` adds.
    pub open spec fn base_ok(&self) -> bool {
        &&& self.bb_ok()
        &&& self.king_ok()
        &&& self.key_ok()
        &&& self.misc_ok()
    }

    /// The fields that placing and removing pieces leave alone.
    pub open spec fn same_frame(&self, other: &Board) -> bool {
        &&& self.side == other.side
        &&& self.en_passant == other.en_passant
        &&& self.fifty_move == other.fifty_move
        &&& self.ply == other.ply
        &&& self.history_ply == other.history_ply
        &&& self.castle_permission == other.castle_permission
        &&& self.history@ == other.history@
        &&& self.history_heuristic == other.history_heuristic
        &&& self.killers == other.killers
        &&& self.keys == other.keys
        &&& self.past == other.past
    }

    fn piece_key(&self, piece: Piece, square: usize) -> (k: u64)
        requires
            self.keys.wf(),
            square < 64,
            piece != Piece::NONE,
        ensures
            k == piece_term(self.keys, piece, square as int),
    {
        self.keys.piece[piece.index() * 64 + square]
    }

    /// Removes the piece on `square`, from the piece array, its bitboard, the occupancies
    /// and the key.
    pub fn clear_piece(&mut self, square: usize)
        requires
            old(self).bb_ok(),
            old(self).keys.wf(),
            square < 64,
            old(self).pieces[square as int] != Piece::NONE,
        ensures
            final(self).bb_ok(),
            final(self).pieces@ == old(self).pieces@.update(square as int, Piece::NONE),
            final(self).king_square == old(self).king_square,
            final(self).same_frame(old(self)),
            old(self).key_ok() ==> final(self).key_ok(),
            old(self).king_ok() ==> final(self).king_ok(),
    {
        proof {
            reveal(Board::bb_ok);
        }
        let piece = self.pieces[square];
        let k = self.piece_key(piece, square);
        let ghost old_self = *self;
        self.position_key = self.position_key ^ k;
        let pi = piece.index();
        let ci = piece.color().index();
        let mut bb = self.bitboards[pi];
        clear_bit(&mut bb, square);
        self.bitboards[pi] = bb;
        let mut oc = self.occupancies[ci];
        clear_bit(&mut oc, square);
        self.occupancies[ci] = oc;
        let mut ob = self.occupancies[2];
        clear_bit(&mut ob, square);
        self.occupancies[2] = ob;
        self.pieces[square] = Piece::NONE;
        proof {
            assert(self.pieces@ =~= old_self.pieces@.update(square as int, Piece::NONE));
            lemma_pieces_hash_update(self.keys, old_self.pieces@, square as int, Piece::NONE, 64);
            let h = pieces_hash(self.keys, old_self.pieces@, 64);
            let rest = side_term(self.keys, self.side) ^ ep_term(self.keys, self.en_passant);
            lemma_key_xor(h, side_term(self.keys, self.side), ep_term(self.keys, self.en_passant), castle_term(self.keys, self.castle_permission), k ^ 0);
            lemma_xor_swap(k, 0, 0);
        }
    }

    /// Puts `piece` on the empty `square`.
    pub fn add_piece(&mut self, square: usize, piece: Piece)
        requires
            old(self).bb_ok(),
            old(self).keys.wf(),
            square < 64,
            old(self).pieces[square as int] == Piece::NONE,
            piece != Piece::NONE,
        ensures
            final(self).bb_ok(),
            final(self).pieces@ == old(self).pieces@.update(square as int, piece),
            final(self).same_frame(old(self)),
            old(self).key_ok() ==> final(self).key_ok(),
            forall|c: int| 0 <= c < 2 ==> final(self).king_square[c] == (if king_of(piece, c) { square } else { old(self).king_square[c] }),
            old(self).king_ok() && (forall|c: int, s: int| 0 <= c < 2 && 0 <= s < 64 && king_of(piece, c) ==> !king_of(old(self).pieces[s], c))
                ==> final(self).king_ok(),
    {
        proof {
            reveal(Board::bb_ok);
        }
        let k = self.piece_key(piece, square);
        let ghost old_self = *self;
        self.position_key = self.position_key ^ k;
        let pi = piece.index();
        let ci = piece.color().index();
        let mut bb = self.bitboards[pi];
        set_bit(&mut bb, square);
        self.bitboards[pi] = bb;
        let mut oc = self.occupancies[ci];
        set_bit(&mut oc, square);
        self.occupancies[ci] = oc;
        let mut ob = self.occupancies[2];
        set_bit(&mut ob, square);
        self.occupancies[2] = ob;
        self.pieces[square] = piece;
        if piece.piece_type() == PieceType::KING {
            self.king_square[ci] = square;
        }
        proof {
            assert(self.pieces@ =~= old_self.pieces@.update(square as int, piece));
            lemma_pieces_hash_update(self.keys, old_self.pieces@, square as int, piece, 64);
            let h = pieces_hash(self.keys, old_self.pieces@, 64);
            lemma_key_xor(h, side_term(self.keys, self.side), ep_term(self.keys, self.en_passant), castle_term(self.keys, self.castle_permission), 0 ^ k);
            lemma_xor_swap(0, k, 0);
            lemma_xor_swap(k, 0, 0);
        }
    }

    /// Moves the piece on `from` to the empty square `to`.
    pub fn move_piece(&mut self, from: usize, to: usize)
        requires
            old(self).bb_ok(),
            old(self).keys.wf(),
            from < 64,
            to < 64,
            from != to,
            old(self).pieces[from as int] != Piece::NONE,
            old(self).pieces[to as int] == Piece::NONE,
        ensures
            final(self).bb_ok(),
            final(self).pieces@ == old(self).pieces@.update(from as int, Piece::NONE).update(to as int, old(self).pieces[from as int]),
            final(self).same_frame(old(self)),
            old(self).key_ok() ==> final(self).key_ok(),
            forall|c: int| 0 <= c < 2 ==> final(self).king_square[c] == (if king_of(old(self).pieces[from as int], c) { to } else { old(self).king_square[c] }),
            old(self).king_ok() ==> final(self).king_ok(),
    {
        proof {
            reveal(Board::bb_ok);
        }
        let piece = self.pieces[from];
        let ghost old_self = *self;
        self.clear_piece(from);
        self.add_piece(to, piece);
        proof {
            assert(self.pieces@ =~= old_self.pieces@.update(from as int, Piece::NONE).update(to as int, piece));
            if old_self.king_ok() {
                assert forall|c: int, s: int| 0 <= c < 2 && 0 <= s < 64 && #[trigger] king_of(self.pieces[s], c) implies self.king_square[c] == s by {
                    if king_of(piece, c) {
                        assert(old_self.king_square[c] == from);
                    }
                }
            }
        }
    }
}

impl Board {
    /// Computes the key of the position from scratch.
    pub fn generate_position_key(&self) -> (k: u64)
        requires
            self.keys.wf(),
            self.castle_permission < 16,
            self.en_passant matches Some(e) ==> e < 64,
        ensures
            k == self.key_spec(),
    {
        let mut final_key: u64 = 0;
        let mut square: usize = 0;
        while square < 64
            invariant
                square <= 64,
                self.keys.wf(),
                final_key == pieces_hash(self.keys, self.pieces@, square as int),
            decreases 64 - square,
        {
            let piece = self.pieces[square];
            let ghost before = final_key;
            if piece != Piece::NONE {
                final_key = final_key ^ self.piece_key(piece, square);
            } else {
                proof {
                    lemma_xor_swap(before, 0, 0);
                }
            }
            square += 1;
        }
        let ghost h = final_key;
        if self.side == Color::WHITE {
            final_key = final_key ^ self.keys.side;
        } else {
            proof {
                lemma_xor_swap(h, 0, 0);
            }
        }
        let ghost hs = final_key;
        match self.en_passant {
            Some(ep) => {
                final_key = final_key ^ self.keys.en_passant[ep as usize];
            },
            None => {
                proof {
                    lemma_xor_swap(hs, 0, 0);
                }
            },
        }
        final_key = final_key ^ self.keys.castle[self.castle_permission as usize];
        final_key
    }
}

/// Xor-ing the key of a change into a position key is xor-ing it into the piece hash.
pub proof fn lemma_key_xor(h: u64, s: u64, e: u64, c: u64, d: u64)
    ensures
        ((h ^ d) ^ s ^ e) ^ c == (((h ^ s) ^ e) ^ c) ^ d,
{
    crate::bits::lemma_xor_algebra(h, s, e, c, d);
}

} // verus!
