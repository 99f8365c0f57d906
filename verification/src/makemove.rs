//! Playing a move on the board and taking it back.
use vstd::prelude::*;
use crate::bits::{bit, lemma_bits_ext};
use crate::board::{Board, Undo, PastPosition, king_of, MAX_GAME_MOVES};
use crate::defs::{Color, Piece, PieceType};
use crate::movegen::{Move, lemma_move_squares};
use crate::movegen::attacks::{square_attacked, attacked, in_check};
use crate::zobrist::{ZobristKeys, pieces_hash, side_term, ep_term, castle_term, position_key_of};

verus! {

/// For each square, the castling rights that survive a move from or to it.
pub const CASTLE_PERMISSION: [u8; 64] = [
    13, 15, 15, 15, 12, 15, 15, 14,
    15, 15, 15, 15, 15, 15, 15, 15,
    15, 15, 15, 15, 15, 15, 15, 15,
    15, 15, 15, 15, 15, 15, 15, 15,
    15, 15, 15, 15, 15, 15, 15, 15,
    15, 15, 15, 15, 15, 15, 15, 15,
    15, 15, 15, 15, 15, 15, 15, 15,
    7, 15, 15, 15, 3, 15, 15, 11,
];

/// The king's target squares when castling: c1, g1, c8, g8.
pub open spec fn castle_target(to: int) -> bool {
    to == 2 || to == 6 || to == 58 || to == 62
}

/// Where the rook starts for a castle to `to`.
pub open spec fn rook_from(to: int) -> int {
    if to == 2 {
        0
    } else if to == 58 {
        56
    } else if to == 6 {
        7
    } else {
        63
    }
}

/// Where the rook ends for a castle to `to`.
pub open spec fn rook_to(to: int) -> int {
    if to == 2 {
        3
    } else if to == 58 {
        59
    } else if to == 6 {
        5
    } else {
        61
    }
}

/// The square of the pawn taken en passant by a move to `to`.
pub open spec fn ep_victim(to: int, side: Color) -> int {
    if side == Color::WHITE {
        to - 8
    } else {
        to + 8
    }
}

/// At most one king of each colour.
pub open spec fn kings_unique(ps: Seq<Piece>) -> bool {
    forall|c: int, s1: int, s2: int|
        0 <= c < 2 && 0 <= s1 < 64 && 0 <= s2 < 64 && #[trigger] king_of(ps[s1], c) && #[trigger] king_of(ps[s2], c)
            ==> s1 == s2
}

/// The squares after `side` plays `mv`: the castling rook moves, a captured piece (or
/// the pawn taken en passant) leaves, and the mover, or the piece it promotes to,
/// lands on the target.
pub open spec fn apply_pieces(ps: Seq<Piece>, side: Color, mv: Move) -> Seq<Piece> {
    let from = mv.from_sq() as int;
    let to = mv.to_sq() as int;
    let ps1 = if mv.castle_flag() {
        ps.update(rook_from(to), Piece::NONE).update(rook_to(to), ps[rook_from(to)])
    } else {
        ps
    };
    let ps2 = if mv.captured_idx() != 0 && !mv.en_passant_flag() {
        ps1.update(to, Piece::NONE)
    } else {
        ps1
    };
    let ps3 = if mv.en_passant_flag() {
        ps2.update(ep_victim(to, side), Piece::NONE)
    } else {
        ps2
    };
    if mv.promoted_idx() != 0 {
        ps3.update(from, Piece::NONE).update(to, Piece::from_idx(mv.promoted_idx()))
    } else {
        ps3.update(from, Piece::NONE).update(to, ps3[from])
    }
}

/// The squares before a move, rebuilt from the squares after it: the inverse of
/// `apply_pieces` that taking a move back computes.
pub open spec fn undo_pieces(cur: Seq<Piece>, side: Color, mv: Move) -> Seq<Piece> {
    let from = mv.from_sq() as int;
    let to = mv.to_sq() as int;
    let c1 = if mv.en_passant_flag() {
        cur.update(ep_victim(to, side), Piece::of(PieceType::PAWN, side.flip()))
    } else if mv.castle_flag() {
        cur.update(rook_to(to), Piece::NONE).update(rook_from(to), cur[rook_to(to)])
    } else {
        cur
    };
    let c2 = c1.update(to, Piece::NONE).update(from, c1[to]);
    let c3 = if mv.captured_idx() != 0 && !mv.en_passant_flag() {
        c2.update(to, Piece::from_idx(mv.captured_idx()))
    } else {
        c2
    };
    if mv.promoted_idx() != 0 {
        c3.update(from, Piece::of(PieceType::PAWN, side))
    } else {
        c3
    }
}

/// The number of occupied squares among the first `n`.
pub open spec fn occupied_upto(ps: Seq<Piece>, n: int) -> nat
    decreases n,
{
    if n <= 0 {
        0
    } else {
        occupied_upto(ps, n - 1) + (if ps[n - 1] != Piece::NONE { 1nat } else { 0nat })
    }
}

/// The number of pieces on the board.
pub open spec fn piece_count(ps: Seq<Piece>) -> nat {
    occupied_upto(ps, 64)
}

proof fn lemma_occupied_update(ps: Seq<Piece>, i: int, x: Piece, n: int)
    requires
        0 <= i < ps.len(),
        0 <= n <= ps.len(),
    ensures
        occupied_upto(ps.update(i, x), n) + (if i < n && ps[i] != Piece::NONE { 1int } else { 0int })
            == occupied_upto(ps, n) + (if i < n && x != Piece::NONE { 1int } else { 0int }),
    decreases n,
{
    if n > 0 {
        lemma_occupied_update(ps, i, x, n - 1);
    }
}

/// There are no more pieces than squares.
pub proof fn lemma_occupied_bound(ps: Seq<Piece>, n: int)
    requires
        0 <= n,
    ensures
        occupied_upto(ps, n) <= n,
    decreases n,
{
    if n > 0 {
        lemma_occupied_bound(ps, n - 1);
    }
}

/// A capture, en passant included, leaves one piece fewer on the board.
pub proof fn lemma_capture_removes_one(ps: Seq<Piece>, side: Color, mv: Move)
    requires
        move_shaped(ps, side, mv),
        mv.captured_idx() != 0 || mv.en_passant_flag(),
    ensures
        piece_count(apply_pieces(ps, side, mv)) + 1 == piece_count(ps),
{
    lemma_move_squares(mv);
    let from = mv.from_sq() as int;
    let to = mv.to_sq() as int;
    if mv.en_passant_flag() {
        let v = ep_victim(to, side);
        let ps3 = ps.update(v, Piece::NONE);
        lemma_occupied_update(ps, v, Piece::NONE, 64);
        let ps4 = ps3.update(from, Piece::NONE);
        lemma_occupied_update(ps3, from, Piece::NONE, 64);
        let last = if mv.promoted_idx() != 0 { Piece::from_idx(mv.promoted_idx()) } else { ps3[from] };
        lemma_occupied_update(ps4, to, last, 64);
        assert(apply_pieces(ps, side, mv) == ps4.update(to, last));
    } else {
        let ps2 = ps.update(to, Piece::NONE);
        lemma_occupied_update(ps, to, Piece::NONE, 64);
        let ps4 = ps2.update(from, Piece::NONE);
        lemma_occupied_update(ps2, from, Piece::NONE, 64);
        let last = if mv.promoted_idx() != 0 { Piece::from_idx(mv.promoted_idx()) } else { ps2[from] };
        lemma_occupied_update(ps4, to, last, 64);
        assert(apply_pieces(ps, side, mv) == ps4.update(to, last));
    }
}

/// The side has its king on the board.
pub open spec fn side_has_king(ps: Seq<Piece>, side: Color) -> bool {
    exists|s: int| 0 <= s < 64 && #[trigger] king_of(ps[s], side.idx() as int)
}

/// A move that fits, on a board where the side has its king.
pub open spec fn move_fits(ps: Seq<Piece>, side: Color, mv: Move) -> bool {
    move_shaped(ps, side, mv) && side_has_king(ps, side)
}

/// The conditions under which `side` can play `mv` on these squares and take it back:
/// the mover is its own, the target is empty or holds the captured piece (an enemy),
/// castling moves a rook to an empty square, en passant takes an enemy pawn, and a
/// promotion turns a pawn into a non-king piece.
pub open spec fn move_shaped(ps: Seq<Piece>, side: Color, mv: Move) -> bool {
    let from = mv.from_sq() as int;
    let to = mv.to_sq() as int;
    &&& ps.len() == 64
    &&& side.is_side()
    &&& from != to
    &&& ps[from] != Piece::NONE
    &&& ps[from].pcolor() == side
    &&& !(mv.castle_flag() && mv.en_passant_flag())
    &&& (mv.castle_flag() ==> {
        &&& castle_target(to)
        &&& from == (if to < 8 { 4int } else { 60int })
        &&& ps[rook_from(to)] != Piece::NONE
        &&& ps[rook_to(to)] == Piece::NONE
        &&& ps[to] == Piece::NONE
        &&& mv.captured_idx() == 0
    })
    &&& (mv.en_passant_flag() ==> {
        &&& ps[to] == Piece::NONE
        &&& 0 <= ep_victim(to, side) < 64
        &&& ep_victim(to, side) != from
        &&& ps[ep_victim(to, side)] == Piece::of(PieceType::PAWN, side.flip())
    })
    &&& (!mv.en_passant_flag() ==> if mv.captured_idx() != 0 {
        &&& ps[to] != Piece::NONE
        &&& ps[to].idx() == mv.captured_idx()
        &&& ps[to].pcolor() != side
    } else {
        ps[to] == Piece::NONE
    })
    &&& (mv.promoted_idx() != 0 ==> {
        &&& Piece::from_idx(mv.promoted_idx()) != Piece::NONE
        &&& Piece::from_idx(mv.promoted_idx()).ptype() != PieceType::KING
        &&& ps[from] == Piece::of(PieceType::PAWN, side)
    })
    &&& (mv.double_push_flag() ==> if side == Color::WHITE {
        from + 8 < 64
    } else {
        from >= 8
    })
}

/// The move is legal: when castling, the king neither starts on nor crosses an attacked
/// square, and afterwards the mover's king is not attacked.
pub open spec fn legal_move(ps: Seq<Piece>, side: Color, mv: Move) -> bool {
    let from = mv.from_sq() as int;
    let to = mv.to_sq() as int;
    &&& (mv.castle_flag() ==> !attacked(ps, from, side) && !attacked(ps, (from + to) / 2, side))
    &&& !in_check(apply_pieces(ps, side, mv), side)
}

/// Taking a move back restores the squares from before it.
pub proof fn lemma_undo_apply(ps: Seq<Piece>, side: Color, mv: Move)
    requires
        move_fits(ps, side, mv),
    ensures
        undo_pieces(apply_pieces(ps, side, mv), side, mv) =~= ps,
{
    lemma_move_squares(mv);
    let from = mv.from_sq() as int;
    let to = mv.to_sq() as int;
    crate::defs::lemma_piece_index_roundtrip(ps[to]);
    let cur = apply_pieces(ps, side, mv);
    let r = undo_pieces(cur, side, mv);
    assert forall|i: int| 0 <= i < 64 implies r[i] == ps[i] by {
        if mv.en_passant_flag() {
            assert(ep_victim(to, side) != to);
        }
    }
}

/// The consistency of the bitboards depends only on the pieces and the bitboards.
pub proof fn lemma_bb_ok_frame(a: &Board, b: &Board)
    requires
        a.pieces == b.pieces,
        a.bitboards == b.bitboards,
        a.occupancies == b.occupancies,
    ensures
        a.bb_ok() == b.bb_ok(),
{
    reveal(Board::bb_ok);
}

impl Board {
    /// Where the pieces stand after the move recorded at `i` (the next past position, or now).
    pub open spec fn pieces_after(&self, i: int) -> Seq<Piece> {
        if i + 1 < self.history_ply {
            self.past@[i + 1].0
        } else {
            self.pieces@
        }
    }

    pub open spec fn side_after(&self, i: int) -> Color {
        if i + 1 < self.history_ply {
            self.past@[i + 1].1
        } else {
            self.side
        }
    }

    /// Each recorded move fits the position before it, and playing it there gives the
    /// position after it.
    pub open spec fn chain_ok(&self) -> bool {
        &&& self.past@.len() == self.history_ply
        &&& forall|i: int| 0 <= i < self.history_ply ==> #[trigger] self.record_ok(i)
    }

    pub open spec fn record_ok(&self, i: int) -> bool {
        let ps = self.past@[i].0;
        let sd = self.past@[i].1;
        let u = self.history@[i];
        &&& ps.len() == 64
        &&& move_fits(ps, sd, u.mv)
        &&& kings_unique(ps)
        &&& apply_pieces(ps, sd, u.mv) == self.pieces_after(i)
        &&& self.side_after(i) == sd.flip()
        &&& u.castle_permission < 16
        &&& (u.en_passant matches Some(e) ==> e < 64)
        &&& u.fifty_move <= i
    }

    /// The full consistency of a position.
    pub open spec fn wf(&self) -> bool {
        &&& self.base_ok()
        &&& self.chain_ok()
    }

    /// Two boards hold the same position, counters and record of moves, up to the
    /// history entry at `slot` (the one an illegal move wrote and left behind).
    pub open spec fn same_position(&self, other: &Board, slot: int) -> bool {
        &&& self.pieces@ == other.pieces@
        &&& self.bitboards == other.bitboards
        &&& self.occupancies == other.occupancies
        &&& self.side == other.side
        &&& self.en_passant == other.en_passant
        &&& self.castle_permission == other.castle_permission
        &&& self.fifty_move == other.fifty_move
        &&& self.history_ply == other.history_ply
        &&& self.ply == other.ply
        &&& self.position_key == other.position_key
        &&& forall|c: int| 0 <= c < 2 && self.has_king(c) ==> self.king_square[c] == other.king_square[c]
        &&& self.history@.len() == other.history@.len()
        &&& forall|i: int| 0 <= i < self.history@.len() && i != slot ==> self.history@[i] == other.history@[i]
        &&& self.history_heuristic == other.history_heuristic
        &&& self.killers == other.killers
        &&& self.keys == other.keys
        &&& self.past == other.past
    }

    /// Switches the side to move, keeping the key in step.
    fn flip_side(&mut self)
        requires
            old(self).side.is_side(),
            old(self).misc_ok(),
        ensures
            final(self).bb_ok() == old(self).bb_ok(),
            final(self).side == old(self).side.flip(),
            old(self).key_ok() ==> final(self).key_ok(),
            final(self).pieces == old(self).pieces,
            final(self).bitboards == old(self).bitboards,
            final(self).occupancies == old(self).occupancies,
            final(self).king_square == old(self).king_square,
            final(self).en_passant == old(self).en_passant,
            final(self).castle_permission == old(self).castle_permission,
            final(self).fifty_move == old(self).fifty_move,
            final(self).ply == old(self).ply,
            final(self).history_ply == old(self).history_ply,
            final(self).history@ == old(self).history@,
            final(self).history_heuristic == old(self).history_heuristic,
            final(self).killers == old(self).killers,
            final(self).keys == old(self).keys,
            final(self).past == old(self).past,
    {
        let ghost old_self = *self;
        self.side = self.side.opposite();
        self.position_key = self.position_key ^ self.keys.side;
        proof {
            let h = pieces_hash(self.keys, self.pieces@, 64);
            let e = ep_term(self.keys, self.en_passant);
            let c = castle_term(self.keys, self.castle_permission);
            let k = self.keys.side;
            lemma_bb_ok_frame(&old_self, self);
            crate::bits::lemma_xor_algebra(h, k, e, c, 0);
        }
    }

    /// Replaces the castling rights, keeping the key in step.
    fn set_castle(&mut self, castle: u8)
        requires
            castle < 16,
            old(self).misc_ok(),
        ensures
            final(self).bb_ok() == old(self).bb_ok(),
            final(self).castle_permission == castle,
            old(self).key_ok() ==> final(self).key_ok(),
            final(self).pieces == old(self).pieces,
            final(self).bitboards == old(self).bitboards,
            final(self).occupancies == old(self).occupancies,
            final(self).king_square == old(self).king_square,
            final(self).en_passant == old(self).en_passant,
            final(self).side == old(self).side,
            final(self).fifty_move == old(self).fifty_move,
            final(self).ply == old(self).ply,
            final(self).history_ply == old(self).history_ply,
            final(self).history@ == old(self).history@,
            final(self).history_heuristic == old(self).history_heuristic,
            final(self).killers == old(self).killers,
            final(self).keys == old(self).keys,
            final(self).past == old(self).past,
    {
        let ghost old_self = *self;
        let a = self.keys.castle[self.castle_permission as usize];
        let b = self.keys.castle[castle as usize];
        self.position_key = self.position_key ^ (a ^ b);
        self.castle_permission = castle;
        proof {
            let h = pieces_hash(self.keys, self.pieces@, 64);
            let s = side_term(self.keys, self.side);
            let e = ep_term(self.keys, self.en_passant);
            lemma_bb_ok_frame(&old_self, self);
            crate::bits::lemma_xor_algebra(h, s, e, a, b);
        }
    }

    /// Replaces the en passant square, keeping the key in step.
    fn set_en_passant(&mut self, ep: Option<u8>)
        requires
            ep matches Some(e) ==> e < 64,
            old(self).misc_ok(),
        ensures
            final(self).bb_ok() == old(self).bb_ok(),
            final(self).en_passant == ep,
            old(self).key_ok() ==> final(self).key_ok(),
            final(self).pieces == old(self).pieces,
            final(self).bitboards == old(self).bitboards,
            final(self).occupancies == old(self).occupancies,
            final(self).king_square == old(self).king_square,
            final(self).castle_permission == old(self).castle_permission,
            final(self).side == old(self).side,
            final(self).fifty_move == old(self).fifty_move,
            final(self).ply == old(self).ply,
            final(self).history_ply == old(self).history_ply,
            final(self).history@ == old(self).history@,
            final(self).history_heuristic == old(self).history_heuristic,
            final(self).killers == old(self).killers,
            final(self).keys == old(self).keys,
            final(self).past == old(self).past,
    {
        let ghost old_self = *self;
        let a = match self.en_passant {
            Some(e) => self.keys.en_passant[e as usize],
            None => 0,
        };
        let b = match ep {
            Some(e) => self.keys.en_passant[e as usize],
            None => 0,
        };
        self.position_key = self.position_key ^ (a ^ b);
        self.en_passant = ep;
        proof {
            let h = pieces_hash(self.keys, self.pieces@, 64);
            let s = side_term(self.keys, self.side);
            let c = castle_term(self.keys, self.castle_permission);
            lemma_bb_ok_frame(&old_self, self);
            crate::bits::lemma_xor_algebra(h, s, c, a, b);
        }
    }
}


impl Board {
    /// Puts the pieces back where they stood before `mv`, given that they stand where
    /// playing `mv` from `ps` put them.
    fn unplay_pieces(&mut self, mv: Move, Ghost(ps): Ghost<Seq<Piece>>)
        requires
            old(self).bb_ok(),
            old(self).king_ok(),
            old(self).misc_ok(),
            old(self).side.is_side(),
            move_fits(ps, old(self).side, mv),
            kings_unique(ps),
            old(self).pieces@ == apply_pieces(ps, old(self).side, mv),
        ensures
            final(self).pieces@ == ps,
            final(self).bb_ok(),
            final(self).king_ok(),
            final(self).misc_ok(),
            final(self).same_frame(old(self)),
            old(self).key_ok() ==> final(self).key_ok(),
    {
        proof {
            lemma_move_squares(mv);
        }
        let side = self.side;
        let from = mv.from_square();
        let to = mv.to_square();
        let ghost cur = self.pieces@;
        if mv.is_en_passant() {
            let victim = if side == Color::WHITE { to - 8 } else { to + 8 };
            self.add_piece(victim, Piece::make(PieceType::PAWN, side.opposite()));
        } else if mv.is_castling() {
            if to == 2 {
                self.move_piece(3, 0);
            } else if to == 58 {
                self.move_piece(59, 56);
            } else if to == 6 {
                self.move_piece(5, 7);
            } else {
                self.move_piece(61, 63);
            }
        }
        self.move_piece(to, from);
        let captured = mv.captured();
        if captured != 0 && !mv.is_en_passant() {
            proof {
                crate::defs::lemma_piece_index_roundtrip(ps[to as int]);
                assert forall|c: int, s: int| 0 <= c < 2 && 0 <= s < 64 && king_of(Piece::from_idx(captured as nat), c) implies !king_of(self.pieces[s], c) by {
                    if king_of(self.pieces[s], c) {
                        assert(king_of(ps[to as int], c));
                    }
                }
            }
            self.add_piece(to, Piece::from_index(captured));
        }
        if mv.promoted() != 0 {
            self.clear_piece(from);
            self.add_piece(from, Piece::make(PieceType::PAWN, side));
        }
        proof {
            lemma_undo_apply(ps, side, mv);
            assert(self.pieces@ =~= undo_pieces(cur, side, mv));
        }
    }

    /// Takes back the last move played, restoring the position before it.
    pub fn take_move(&mut self)
        requires
            old(self).wf(),
            old(self).history_ply > 0,
            old(self).ply > 0,
        ensures
            final(self).wf(),
            final(self).took_back(old(self)),
    {
        let ghost old_self = *self;
        let hp = self.history_ply - 1;
        let u = self.history[hp];
        let ghost ps = self.past@[hp as int].0;
        let ghost sd = self.past@[hp as int].1;
        proof {
            assert(self.record_ok(hp as int));
        }
        self.fifty_move = u.fifty_move;
        self.history_ply = hp;
        self.ply = self.ply - 1;
        self.past = Ghost(self.past@.drop_last());
        proof {
            lemma_bb_ok_frame(&old_self, self);
        }
        self.set_castle(u.castle_permission);
        self.set_en_passant(u.en_passant);
        self.flip_side();
        self.unplay_pieces(u.mv, Ghost(ps));
        proof {
            assert forall|i: int| 0 <= i < self.history_ply implies #[trigger] self.record_ok(i) by {
                assert(old_self.record_ok(i));
            }
        }
    }
}

/// Two consistent boards with the same pieces have the same bitboards.
pub proof fn lemma_same_pieces_same_boards(a: &Board, b: &Board)
    requires
        a.bb_ok(),
        b.bb_ok(),
        a.pieces@ == b.pieces@,
    ensures
        a.bitboards == b.bitboards,
        a.occupancies == b.occupancies,
{
    reveal(Board::bb_ok);
    broadcast use vstd::array::group_array_axioms;
    assert forall|p: int| 0 <= p < 32 implies a.bitboards[p] == b.bitboards[p] by {
        assert forall|t: int| 0 <= t < 64 implies bit(a.bitboards[p], t) == bit(b.bitboards[p], t) by {
            assert(a.pieces[t] == b.pieces[t]);
        }
        lemma_bits_ext(a.bitboards[p], b.bitboards[p]);
    }
    assert(a.bitboards =~= b.bitboards);
    assert forall|c: int| 0 <= c < 3 implies a.occupancies[c] == b.occupancies[c] by {
        assert forall|t: int| 0 <= t < 64 implies bit(a.occupancies[c], t) == bit(b.occupancies[c], t) by {
            assert(a.pieces[t] == b.pieces[t]);
        }
        lemma_bits_ext(a.occupancies[c], b.occupancies[c]);
    }
    assert(a.occupancies =~= b.occupancies);
}

/// The king invariant says there is at most one king of each colour.
pub proof fn lemma_king_ok_unique(b: &Board)
    requires
        b.king_ok(),
    ensures
        kings_unique(b.pieces@),
{
}

/// A move that fits leaves the mover's king on the board.
pub proof fn lemma_king_survives(ps: Seq<Piece>, side: Color, mv: Move)
    requires
        move_fits(ps, side, mv),
    ensures
        exists|s: int| 0 <= s < 64 && #[trigger] king_of(apply_pieces(ps, side, mv)[s], side.idx() as int),
{
    lemma_move_squares(mv);
    let c = side.idx() as int;
    let s0 = choose|s: int| 0 <= s < 64 && #[trigger] king_of(ps[s], c);
    let from = mv.from_sq() as int;
    let to = mv.to_sq() as int;
    let cur = apply_pieces(ps, side, mv);
    if s0 == from {
        assert(mv.promoted_idx() == 0);
        assert(king_of(cur[to], c));
    } else if mv.castle_flag() && s0 == rook_from(to) {
        assert(king_of(cur[rook_to(to)], c));
    } else {
        assert(king_of(cur[s0], c));
    }
}

impl Board {
    /// What taking back the last move of `before` did.
    pub open spec fn took_back(&self, before: &Board) -> bool {
        let i = before.history_ply - 1;
        &&& self.history_ply == before.history_ply - 1
        &&& self.ply == before.ply - 1
        &&& self.pieces@ == before.past@[i].0
        &&& self.side == before.past@[i].1
        &&& self.castle_permission == before.history@[i].castle_permission
        &&& self.en_passant == before.history@[i].en_passant
        &&& self.fifty_move == before.history@[i].fifty_move
        &&& self.history@ == before.history@
        &&& self.past@ == before.past@.drop_last()
        &&& self.history_heuristic == before.history_heuristic
        &&& self.killers == before.killers
        &&& self.keys == before.keys
    }

    /// What playing `mv` from `before` did, when it was legal.
    pub open spec fn played(&self, before: &Board, mv: Move) -> bool {
        let from = mv.from_sq() as int;
        let to = mv.to_sq() as int;
        let hp = before.history_ply as int;
        &&& self.pieces@ == apply_pieces(before.pieces@, before.side, mv)
        &&& self.side == before.side.flip()
        &&& self.history_ply == before.history_ply + 1
        &&& self.ply == before.ply + 1
        &&& self.castle_permission == before.castle_permission & CASTLE_PERMISSION[from] & CASTLE_PERMISSION[to]
        &&& self.en_passant == (if mv.double_push_flag() {
            Some((if before.side == Color::WHITE { from + 8 } else { from - 8 }) as u8)
        } else {
            None
        })
        &&& self.fifty_move == (if mv.captured_idx() != 0 || before.pieces[from].ptype() == PieceType::PAWN {
            0
        } else {
            before.fifty_move + 1
        })
        &&& self.history@.len() == before.history@.len()
        &&& forall|i: int| 0 <= i < self.history@.len() && i != hp ==> self.history@[i] == before.history@[i]
        &&& self.history@[hp].mv == mv
        &&& self.history@[hp].castle_permission == before.castle_permission
        &&& self.history@[hp].en_passant == before.en_passant
        &&& self.history@[hp].fifty_move == before.fifty_move
        &&& (!mv.castle_flag() ==> self.history@[hp].position_key == before.position_key)
        &&& self.past@ == before.past@.push((before.pieces@, before.side))
        &&& self.history_heuristic == before.history_heuristic
        &&& self.killers == before.killers
        &&& self.keys == before.keys
    }

    /// Clears the captured piece (or the pawn taken en passant) and puts the mover, or
    /// its promotion, on the target; the castling rook has already moved.
    fn play_pieces(&mut self, mv: Move, Ghost(ps): Ghost<Seq<Piece>>)
        requires
            old(self).bb_ok(),
            old(self).king_ok(),
            old(self).misc_ok(),
            move_fits(ps, old(self).side, mv),
            old(self).pieces@ == (if mv.castle_flag() {
                ps.update(rook_from(mv.to_sq() as int), Piece::NONE).update(rook_to(mv.to_sq() as int), ps[rook_from(mv.to_sq() as int)])
            } else {
                ps
            }),
        ensures
            final(self).pieces@ == apply_pieces(ps, old(self).side, mv),
            final(self).bb_ok(),
            final(self).king_ok(),
            final(self).misc_ok(),
            final(self).same_frame(old(self)),
            old(self).key_ok() ==> final(self).key_ok(),
    {
        proof {
            lemma_move_squares(mv);
        }
        let side = self.side;
        let from = mv.from_square();
        let to = mv.to_square();
        if mv.captured() != 0 && !mv.is_en_passant() {
            self.clear_piece(to);
        }
        if mv.is_en_passant() {
            let victim = if side == Color::WHITE { to - 8 } else { to + 8 };
            self.clear_piece(victim);
        }
        let promote = mv.promoted();
        if promote != 0 {
            self.clear_piece(from);
            self.add_piece(to, Piece::from_index(promote));
        } else {
            self.move_piece(from, to);
        }
        proof {
            assert(self.pieces@ =~= apply_pieces(ps, side, mv));
        }
    }

    /// Plays `mv` for the side to move. Returns whether it was legal; an illegal move
    /// is taken back, leaving the position as it was.
    pub fn make_move(&mut self, mv: Move) -> (legal: bool)
        requires
            old(self).wf(),
            move_fits(old(self).pieces@, old(self).side, mv),
            old(self).history_ply < MAX_GAME_MOVES,
            old(self).ply < 255,
            old(self).fifty_move < 255,
        ensures
            final(self).wf(),
            legal == legal_move(old(self).pieces@, old(self).side, mv),
            legal ==> final(self).played(old(self), mv),
            !legal ==> final(self).same_position(old(self), old(self).history_ply as int),
            mv.castle_flag() && (attacked(old(self).pieces@, mv.from_sq() as int, old(self).side)
                || attacked(old(self).pieces@, (mv.from_sq() + mv.to_sq()) as int / 2, old(self).side))
                ==> *final(self) == *old(self),
    {
        let ghost old_self = *self;
        proof {
            lemma_move_squares(mv);
            lemma_king_ok_unique(self);
        }
        let from = mv.from_square();
        let to = mv.to_square();
        let side = self.side;

        if mv.is_castling() {
            if square_attacked(from, side, self) {
                return false;
            }
            let crossing = (from + to) / 2;
            if square_attacked(crossing, side, self) {
                return false;
            }
            if to == 2 {
                self.move_piece(0, 3);
            } else if to == 58 {
                self.move_piece(56, 59);
            } else if to == 6 {
                self.move_piece(7, 5);
            } else {
                self.move_piece(63, 61);
            }
        }
        let ghost after_rook = *self;

        let hp = self.history_ply;
        let undo = Undo {
            mv,
            castle_permission: self.castle_permission,
            en_passant: self.en_passant,
            fifty_move: self.fifty_move,
            position_key: self.position_key,
        };
        self.history.set(hp, undo);
        self.past = Ghost(self.past@.push((old_self.pieces@, side)));
        let is_pawn = self.pieces[from].piece_type() == PieceType::PAWN;
        let captured = mv.captured();
        self.history_ply = hp + 1;
        self.ply = self.ply + 1;
        self.fifty_move = if captured != 0 || is_pawn { 0 } else { self.fifty_move + 1 };
        proof {
            lemma_bb_ok_frame(&after_rook, self);
        }
        self.play_pieces(mv, Ghost(old_self.pieces@));

        let new_castle = self.castle_permission & CASTLE_PERMISSION[from] & CASTLE_PERMISSION[to];
        proof {
            let c = self.castle_permission;
            let a = CASTLE_PERMISSION[from as int];
            let b = CASTLE_PERMISSION[to as int];
            assert(c & a & b <= c) by (bit_vector);
        }
        self.set_castle(new_castle);
        let new_ep = if mv.is_double_push() {
            if side == Color::WHITE {
                Some((from + 8) as u8)
            } else {
                Some((from - 8) as u8)
            }
        } else {
            None
        };
        self.set_en_passant(new_ep);
        self.flip_side();

        proof {
            lemma_king_survives(old_self.pieces@, side, mv);
            assert forall|i: int| 0 <= i < self.history_ply implies #[trigger] self.record_ok(i) by {
                if i < hp {
                    assert(old_self.record_ok(i));
                }
            }
        }
        let king_square = self.king_square[side.index()];
        if square_attacked(king_square, side, self) {
            self.take_move();
            proof {
                lemma_same_pieces_same_boards(self, &old_self);
                assert(self.past@ =~= old_self.past@);
            }
            return false;
        }
        true
    }
}

/// Taking back a legal move restores the position it was played from: the same pieces,
/// bitboards, side, rights, counters, key and kings; only the history slot that recorded
/// the move keeps the record.
pub proof fn lemma_make_take_roundtrip(before: &Board, mid: &Board, after: &Board, mv: Move)
    requires
        before.wf(),
        mid.wf(),
        after.wf(),
        mid.played(before, mv),
        after.took_back(mid),
    ensures
        after.same_position(before, before.history_ply as int),
{
    lemma_same_pieces_same_boards(after, before);
    assert(after.past@ =~= before.past@);
}

} // verus!
