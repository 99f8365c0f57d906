//! Pseudo-legal move generation. Each move enters the list with its ordering score:
//! captures by exchange outcome and victim/attacker values, quiet moves by killer
//! slots and the history table.
use vstd::prelude::*;
use crate::bits::{bit, lsb, lowest_square, without_lowest, lemma_bit_and, lemma_bit_not, lemma_bit_or, lemma_bit_shl, lemma_bit_shr, lemma_bit_single};
use crate::board::{Board, MAX_DEPTH};
use crate::defs::{Color, Piece, PieceType, WHITE_KING_CASTLE, WHITE_QUEEN_CASTLE, BLACK_KING_CASTLE, BLACK_QUEEN_CASTLE};
use crate::makemove::{move_shaped, rook_from, rook_to, ep_victim, castle_target};
use crate::movegen::{Move, MoveList, ScoredMove, encode_move, lemma_move_fields, MOVE_FLAG_NONE, MOVE_FLAG_EN_PASSANT, MOVE_FLAG_PAWN_START, MOVE_FLAG_CASTLE};
use crate::movegen::attacks::{knight_attacks, king_attacks, pawn_attacks, get_rook_attacks, get_bishop_attacks, pawn_capture, knight_move, king_move, bishop_sees, rook_sees, occ_of};
use crate::movegen::mvv_lva::{MVV_LVA_SCORES, lemma_mvv_lva_range};
use crate::search::evaluate::{PIECE_VALUE, piece_value, exchange_value};

verus! {

/// The ordering score of a quiet move: the first killer of this ply, then the second,
/// else the history score of the moving piece and target square.
pub open spec fn quiet_score(pos: Board, mv: Move) -> i16 {
    let ply = pos.ply as int;
    if ply < MAX_DEPTH && pos.killers[ply][0] == Some(mv) {
        10000
    } else if ply < MAX_DEPTH && pos.killers[ply][1] == Some(mv) {
        9000
    } else {
        pos.history_heuristic[pos.pieces[mv.from_sq() as int].idx() as int][mv.to_sq() as int]
    }
}

/// The type of the piece a move captures.
pub open spec fn victim_type(mv: Move) -> PieceType {
    Piece::from_idx(mv.captured_idx()).ptype()
}

/// The ordering score of a capture by `attacker`: captures that win or hold material
/// (the victim is worth at least the attacker, or the exchange does not lose) come
/// first, then the victim/attacker bonus.
pub open spec fn capture_score(pos: Board, attacker: PieceType, mv: Move) -> int {
    let victim = victim_type(mv);
    let boost = if piece_value(victim) >= piece_value(attacker) || exchange_value(
        pos,
        mv.from_sq() as int,
        mv.to_sq() as int,
        victim,
        attacker,
    ) >= 0 {
        20000int
    } else {
        -1000int
    };
    boost + MVV_LVA_SCORES[victim.idx() as int][attacker.idx() as int]
}

/// The score a generated move carries.
pub open spec fn move_score(pos: Board, mv: Move) -> int {
    if mv.captured_idx() != 0 {
        capture_score(pos, pos.pieces[mv.from_sq() as int].ptype(), mv)
    } else {
        quiet_score(pos, mv) as int
    }
}

/// A list entry the generator may produce: a move of the side to move that can be
/// played and taken back, scored by `move_score`; in a capture-only list, a capture
/// or an en passant capture.
pub open spec fn generated(pos: Board, s: ScoredMove, captures_only: bool) -> bool {
    &&& move_shaped(pos.pieces@, pos.side, s.mv)
    &&& s.score == move_score(pos, s.mv)
    &&& (captures_only ==> s.mv.captured_idx() != 0 || s.mv.en_passant_flag())
}

pub open spec fn all_generated(pos: Board, moves: Seq<ScoredMove>, captures_only: bool) -> bool {
    forall|i: int| 0 <= i < moves.len() ==> #[trigger] generated(pos, moves[i], captures_only)
}

/// What the generators need of the position.
pub open spec fn ready(pos: &Board) -> bool {
    &&& pos.bb_ok()
    &&& pos.side.is_side()
    &&& (pos.en_passant matches Some(e) ==> e < 64)
}

/// The bitboard of each rank, by rank number from 1 (index 0 unused).
pub const RANK_BB_MASK: [u64; 9] = [
    0,
    255,
    65280,
    16711680,
    4278190080,
    1095216660480,
    280375465082880,
    71776119061217280,
    18374686479671623680,
];

/// Some entry of the list holds `mv`.
pub open spec fn listed(moves: Seq<ScoredMove>, mv: Move) -> bool {
    exists|i: int| 0 <= i < moves.len() && #[trigger] moves[i].mv == mv
}

/// Adding an entry adds its move to those listed.
pub proof fn lemma_listed_push(moves: Seq<ScoredMove>, x: ScoredMove)
    ensures
        forall|mv: Move| #[trigger] listed(moves.push(x), mv) == (listed(moves, mv) || x.mv == mv),
{
    assert forall|mv: Move| #[trigger] listed(moves.push(x), mv) == (listed(moves, mv) || x.mv == mv) by {
        if listed(moves, mv) {
            let i = choose|i: int| 0 <= i < moves.len() && #[trigger] moves[i].mv == mv;
            assert(moves.push(x)[i].mv == mv);
        }
        if x.mv == mv {
            assert(moves.push(x)[moves.len() as int].mv == mv);
        }
        if listed(moves.push(x), mv) {
            let i = choose|i: int| 0 <= i < moves.push(x).len() && #[trigger] moves.push(x)[i].mv == mv;
            if i < moves.len() {
                assert(moves[i].mv == mv);
            }
        }
    }
}

/// No move is listed twice.
pub open spec fn distinct_moves(s: Seq<ScoredMove>) -> bool {
    forall|i: int, j: int| 0 <= i < j < s.len() ==> #[trigger] s[i].mv != #[trigger] s[j].mv
}

/// Adding a move not yet listed keeps the moves distinct.
pub proof fn lemma_distinct_push(s: Seq<ScoredMove>, x: ScoredMove)
    requires
        distinct_moves(s),
        !listed(s, x.mv),
    ensures
        distinct_moves(s.push(x)),
{
    assert forall|i: int, j: int| 0 <= i < j < s.push(x).len() implies #[trigger] s.push(x)[i].mv != #[trigger] s.push(x)[j].mv by {
        assert(s.push(x)[i] == s[i]);
        if j < s.len() {
            assert(s.push(x)[j] == s[j]);
        } else if s[i].mv == x.mv {
            assert(listed(s, x.mv));
        }
    }
}

/// The moves listed are those of `base` and those that the squares of `bb0` already
/// taken out of `rem` emit.
pub open spec fn swept(base: Seq<ScoredMove>, moves: Seq<ScoredMove>, bb0: u64, rem: u64, emits: spec_fn(int, Move) -> bool) -> bool {
    forall|mv: Move| #[trigger] listed(moves, mv) == (listed(base, mv) || exists|s: int|
        0 <= s < 64 && bit(bb0, s) && !bit(rem, s) && #[trigger] emits(s, mv))
}

pub proof fn lemma_swept_start(base: Seq<ScoredMove>, bb0: u64, emits: spec_fn(int, Move) -> bool)
    ensures
        swept(base, base, bb0, bb0, emits),
{
}

pub proof fn lemma_swept_step(
    base: Seq<ScoredMove>,
    moves: Seq<ScoredMove>,
    moves2: Seq<ScoredMove>,
    bb0: u64,
    rem: u64,
    rem2: u64,
    emits: spec_fn(int, Move) -> bool,
)
    requires
        rem != 0,
        forall|t: int| 0 <= t < 64 ==> bit(rem2, t) == (bit(rem, t) && t != lsb(rem)),
        forall|t: int| 0 <= t < 64 && bit(rem, t) ==> bit(bb0, t),
        swept(base, moves, bb0, rem, emits),
        forall|mv: Move| #[trigger] listed(moves2, mv) == (listed(moves, mv) || emits(lsb(rem), mv)),
    ensures
        swept(base, moves2, bb0, rem2, emits),
{
    crate::bits::lemma_lsb(rem);
    let s0 = lsb(rem);
    assert forall|mv: Move| #[trigger] listed(moves2, mv) == (listed(base, mv) || exists|s: int|
        0 <= s < 64 && bit(bb0, s) && !bit(rem2, s) && #[trigger] emits(s, mv)) by {
        assert(listed(moves, mv) == (listed(base, mv) || exists|s: int|
            0 <= s < 64 && bit(bb0, s) && !bit(rem, s) && #[trigger] emits(s, mv)));
        if emits(s0, mv) {
            assert(0 <= s0 < 64 && bit(bb0, s0) && !bit(rem2, s0) && emits(s0, mv));
        }
        if exists|s: int| 0 <= s < 64 && bit(bb0, s) && !bit(rem2, s) && #[trigger] emits(s, mv) {
            let s = choose|s: int| 0 <= s < 64 && bit(bb0, s) && !bit(rem2, s) && #[trigger] emits(s, mv);
            if s != s0 {
                assert(!bit(rem, s));
            }
        }
        if exists|s: int| 0 <= s < 64 && bit(bb0, s) && !bit(rem, s) && #[trigger] emits(s, mv) {
            let s = choose|s: int| 0 <= s < 64 && bit(bb0, s) && !bit(rem, s) && #[trigger] emits(s, mv);
            assert(!bit(rem2, s));
        }
    }
}

/// A move that only the square `s0`, not yet taken out, emits, and that `base` does not
/// list, is not listed yet.
pub proof fn lemma_swept_fresh(base: Seq<ScoredMove>, moves: Seq<ScoredMove>, bb0: u64, rem: u64, emits: spec_fn(int, Move) -> bool, s0: int, mv: Move)
    requires
        swept(base, moves, bb0, rem, emits),
        0 <= s0 < 64,
        bit(rem, s0),
        forall|s: int| 0 <= s < 64 && s != s0 && bit(bb0, s) ==> !#[trigger] emits(s, mv),
        !listed(base, mv),
    ensures
        !listed(moves, mv),
{
    if listed(moves, mv) {
        let s = choose|s: int| 0 <= s < 64 && bit(bb0, s) && !bit(rem, s) && #[trigger] emits(s, mv);
        assert(s != s0);
    }
}

/// When every square has been taken out, the squares of `bb0` have emitted their moves.
pub proof fn lemma_swept_end(base: Seq<ScoredMove>, moves: Seq<ScoredMove>, bb0: u64, emits: spec_fn(int, Move) -> bool)
    requires
        swept(base, moves, bb0, 0, emits),
    ensures
        forall|mv: Move| #[trigger] listed(moves, mv) == (listed(base, mv) || exists|s: int|
            0 <= s < 64 && bit(bb0, s) && #[trigger] emits(s, mv)),
{
    assert forall|mv: Move| #[trigger] listed(moves, mv) == (listed(base, mv) || exists|s: int|
        0 <= s < 64 && bit(bb0, s) && #[trigger] emits(s, mv)) by {
        assert(listed(moves, mv) == (listed(base, mv) || exists|s: int|
            0 <= s < 64 && bit(bb0, s) && !bit(0, s) && #[trigger] emits(s, mv)));
        if exists|s: int| 0 <= s < 64 && bit(bb0, s) && #[trigger] emits(s, mv) {
            let s = choose|s: int| 0 <= s < 64 && bit(bb0, s) && #[trigger] emits(s, mv);
            crate::bits::lemma_bit_zero(s as u64);
        }
    }
}

impl MoveList {
    /// Adds a quiet move with its killer or history score.
    fn add_quiet_move(&mut self, position: &Board, mv: Move)
        requires
            old(self).wf(),
        ensures
            final(self).wf(),
            final(self).moves@ == old(self).moves@.push(ScoredMove { mv, score: quiet_score(*position, mv) }),
    {
        let mut score: i16 = 0;
        let mut found = false;
        let ply = position.ply as usize;
        if ply < MAX_DEPTH {
            if let Some(killer) = position.killers[ply][0] {
                if killer.0 == mv.0 {
                    score = 10000;
                    found = true;
                }
            }
            if !found {
                if let Some(killer) = position.killers[ply][1] {
                    if killer.0 == mv.0 {
                        score = 9000;
                        found = true;
                    }
                }
            }
        }
        if !found {
            let piece_index = position.pieces[mv.from_square()].index();
            score = position.history_heuristic[piece_index][mv.to_square()];
        }
        self.add(ScoredMove::new(mv, score));
    }

    /// Adds a capture by `attacker` with its exchange and victim/attacker score.
    fn add_capture_move(&mut self, position: &Board, attacker: PieceType, mv: Move)
        requires
            old(self).wf(),
            ready(position),
        ensures
            final(self).wf(),
            final(self).moves@.len() == old(self).moves@.len() + 1,
            final(self).moves@.drop_last() == old(self).moves@,
            final(self).moves@.last().mv == mv,
            final(self).moves@.last().score == capture_score(*position, attacker, mv),
    {
        let victim = Piece::from_index(mv.captured()).piece_type();
        let good = PIECE_VALUE[victim.index()] >= PIECE_VALUE[attacker.index()]
            || position.static_exchange_evaluation(mv.from_square(), mv.to_square(), victim, attacker) >= 0;
        let see_boost: i16 = if good {
            20000
        } else {
            -1000
        };
        proof {
            lemma_mvv_lva_range(victim.idx() as int, attacker.idx() as int);
        }
        let mvv_lva_boost = MVV_LVA_SCORES[victim.index()][attacker.index()];
        let ghost before = self.moves@;
        self.add(ScoredMove::new(mv, see_boost + mvv_lva_boost));
        proof {
            assert(self.moves@.drop_last() =~= before);
        }
    }
}

/// The squares each occupancy and bitboard holds, relative to the side to move.
proof fn lemma_ready_facts(pos: &Board)
    requires
        ready(pos),
    ensures
        forall|t: int| 0 <= t < 64 ==> #[trigger] bit(pos.occupancies[pos.side.idx() as int], t) == (pos.pieces[t]
            != Piece::NONE && pos.pieces[t].pcolor() == pos.side),
        forall|t: int| 0 <= t < 64 ==> #[trigger] bit(pos.occupancies[pos.side.flip().idx() as int], t) == (
        pos.pieces[t] != Piece::NONE && pos.pieces[t].pcolor() == pos.side.flip()),
        forall|p: int, t: int| 0 <= p < 32 && 0 <= t < 64 ==> #[trigger] bit(pos.bitboards[p], t) == (
        pos.pieces[t] != Piece::NONE && pos.pieces[t].idx() == p),
        forall|t: int| 0 <= t < 64 ==> (#[trigger] pos.pieces[t] != Piece::NONE ==> (pos.pieces[t].pcolor()
            == pos.side || pos.pieces[t].pcolor() == pos.side.flip())),
{
    reveal(Board::bb_ok);
}

/// The move the generator makes for the piece on `from` reaching `to`: the capture of
/// an enemy piece there, or, unless only captures are wanted, the move to the empty
/// square.
pub open spec fn target_move(pos: Board, from: int, to: int, captures_only: bool, mv: Move) -> bool {
    let p = pos.pieces@[to];
    if p != Piece::NONE && p.pcolor() == pos.side.flip() {
        mv == Move(encode_move(from as u32, to as u32, p.idx() as u32, 0, 0))
    } else if p == Piece::NONE {
        !captures_only && mv == Move(encode_move(from as u32, to as u32, 0, 0, 0))
    } else {
        false
    }
}

/// The moves a piece on `from` makes to the squares of `attacks`.
pub open spec fn reach_moves(pos: Board, from: int, attacks: u64, captures_only: bool, mv: Move) -> bool {
    exists|to: int| 0 <= to < 64 && bit(attacks, to) && #[trigger] target_move(pos, from, to, captures_only, mv)
}

impl MoveList {
    /// Adds the moves of the piece on `from_square` to the squares of `attacks`: captures
    /// of enemy pieces, then (unless `captures_only`) moves to empty squares.
    fn serialize_moves(&mut self, position: &Board, from_square: usize, attacks: u64, captures_only: bool)
        requires
            old(self).wf(),
            ready(position),
            from_square < 64,
            position.pieces[from_square as int] != Piece::NONE,
            position.pieces[from_square as int].pcolor() == position.side,
            !bit(attacks, from_square as int),
            all_generated(*position, old(self).moves@, captures_only),
            distinct_moves(old(self).moves@),
            forall|m: Move| #[trigger] listed(old(self).moves@, m) ==> m.from_sq() != from_square,
        ensures
            final(self).wf(),
            all_generated(*position, final(self).moves@, captures_only),
            forall|mv: Move| #[trigger] listed(final(self).moves@, mv) == (listed(old(self).moves@, mv)
                || reach_moves(*position, from_square as int, attacks, captures_only, mv)),
            distinct_moves(final(self).moves@),
            keeps_prefix(old(self).moves@, final(self).moves@),
    {
        let ghost pos = *position;
        let ghost ps = position.pieces@;
        let ghost base = self.moves@;
        let side = position.side;
        let their_occupancy = position.occupancies[side.opposite().index()];
        let our_occupancy = position.occupancies[side.index()];
        let valid_moves = attacks & !our_occupancy;
        let mut captures = valid_moves & their_occupancy;
        let mut quiets = valid_moves & !their_occupancy;
        let ghost captures0 = captures;
        let ghost quiets0 = quiets;
        let ghost emits_capture = |to: int, mv: Move|
            ps[to] != Piece::NONE && ps[to].pcolor() == side.flip()
                && mv == Move(encode_move(from_square as u32, to as u32, ps[to].idx() as u32, 0, 0));
        let ghost emits_quiet = |to: int, mv: Move|
            ps[to] == Piece::NONE && mv == Move(encode_move(from_square as u32, to as u32, 0, 0, 0));
        let attacker = position.pieces[from_square].piece_type();
        proof {
            lemma_ready_facts(position);
            assert forall|t: int| 0 <= t < 64 implies #[trigger] bit(captures, t) == (bit(attacks, t) && ps[t] != Piece::NONE
                && ps[t].pcolor() == side.flip()) by {
                lemma_bit_and(valid_moves, their_occupancy, t as u64);
                lemma_bit_and(attacks, !our_occupancy, t as u64);
                lemma_bit_not(our_occupancy, t as u64);
            }
            assert forall|t: int| 0 <= t < 64 implies #[trigger] bit(quiets, t) == (bit(attacks, t) && ps[t] == Piece::NONE) by {
                lemma_bit_and(valid_moves, !their_occupancy, t as u64);
                lemma_bit_and(attacks, !our_occupancy, t as u64);
                lemma_bit_not(their_occupancy, t as u64);
                lemma_bit_not(our_occupancy, t as u64);
            }
            lemma_swept_start(base, captures0, emits_capture);
            assert(base.subrange(0, base.len() as int) =~= base);
        }
        while captures != 0
            invariant
                self.wf(),
                ready(position),
                pos == *position,
                ps == position.pieces@,
                side == position.side,
                from_square < 64,
                ps[from_square as int] != Piece::NONE,
                ps[from_square as int].pcolor() == side,
                !bit(attacks, from_square as int),
                attacker == ps[from_square as int].ptype(),
                all_generated(pos, self.moves@, captures_only),
                forall|t: int| 0 <= t < 64 && #[trigger] bit(captures, t) ==> bit(captures0, t),
                forall|t: int| 0 <= t < 64 ==> #[trigger] bit(captures0, t) == (bit(attacks, t) && ps[t] != Piece::NONE
                    && ps[t].pcolor() == side.flip()),
                swept(base, self.moves@, captures0, captures, emits_capture),
                forall|t: int, m: Move| #[trigger] emits_capture(t, m) == (ps[t] != Piece::NONE && ps[t].pcolor() == side.flip()
                    && m == Move(encode_move(from_square as u32, t as u32, ps[t].idx() as u32, 0, 0))),
                distinct_moves(self.moves@),
                forall|m: Move| #[trigger] listed(base, m) ==> m.from_sq() != from_square,
                keeps_prefix(base, self.moves@),
            decreases captures,
        {
            let to_square = lowest_square(captures);
            let captured_piece = position.pieces[to_square];
            let mv = Move::new(from_square, to_square, captured_piece.index(), MOVE_FLAG_NONE, 0);
            proof {
                crate::defs::lemma_piece_index_roundtrip(captured_piece);
                assert forall|s: int| 0 <= s < 64 && s != to_square implies !#[trigger] emits_capture(s, mv) by {
                    if emits_capture(s, mv) {
                        crate::defs::lemma_piece_index_roundtrip(ps[s]);
                        crate::movegen::lemma_move_fields(from_square as u32, s as u32, ps[s].idx() as u32, 0, 0);
                    }
                }
                lemma_swept_fresh(base, self.moves@, captures0, captures, emits_capture, to_square as int, mv);
            }
            let ghost before = self.moves@;
            self.add_capture_move(position, attacker, mv);
            proof {
                assert(self.moves@ =~= before.push(self.moves@.last()));
                lemma_keeps_prefix_push(before, self.moves@.last());
                lemma_keeps_prefix_trans(base, before, self.moves@);
                lemma_distinct_push(before, self.moves@.last());
                assert forall|i: int| 0 <= i < self.moves@.len() implies #[trigger] generated(pos, self.moves@[i], captures_only) by {
                    if i < self.moves@.len() - 1 {
                        assert(self.moves@[i] == self.moves@.drop_last()[i]);
                    }
                }
                assert(self.moves@ =~= before.push(self.moves@.last()));
                lemma_listed_push(before, self.moves@.last());
                assert(bit(captures0, to_square as int));
                assert forall|m: Move| #[trigger] listed(self.moves@, m) == (listed(before, m) || emits_capture(lsb(captures), m)) by {
                    assert(emits_capture(lsb(captures), m) == (m == mv));
                }
            }
            let rest = without_lowest(captures);
            proof {
                lemma_swept_step(base, before, self.moves@, captures0, captures, rest, emits_capture);
            }
            captures = rest;
        }
        let ghost after_captures = self.moves@;
        proof {
            lemma_swept_end(base, after_captures, captures0, emits_capture);
            lemma_swept_start(after_captures, quiets0, emits_quiet);
            assert forall|m: Move| #[trigger] listed(after_captures, m) implies m.from_sq() != from_square
                || ps[m.to_sq() as int] != Piece::NONE by {
                if !listed(base, m) {
                    let s = choose|s: int| 0 <= s < 64 && bit(captures0, s) && #[trigger] emits_capture(s, m);
                    crate::defs::lemma_piece_index_roundtrip(ps[s]);
                    crate::movegen::lemma_move_fields(from_square as u32, s as u32, ps[s].idx() as u32, 0, 0);
                }
            }
        }
        if !captures_only {
            while quiets != 0
                invariant
                    self.wf(),
                    ready(position),
                    pos == *position,
                    ps == position.pieces@,
                    side == position.side,
                    from_square < 64,
                    ps[from_square as int] != Piece::NONE,
                    ps[from_square as int].pcolor() == side,
                    !bit(attacks, from_square as int),
                    !captures_only,
                    all_generated(pos, self.moves@, captures_only),
                    forall|t: int| 0 <= t < 64 && #[trigger] bit(quiets, t) ==> bit(quiets0, t),
                    forall|t: int| 0 <= t < 64 ==> #[trigger] bit(quiets0, t) == (bit(attacks, t) && ps[t] == Piece::NONE),
                    swept(after_captures, self.moves@, quiets0, quiets, emits_quiet),
                    forall|t: int, m: Move| #[trigger] emits_quiet(t, m) == (ps[t] == Piece::NONE
                        && m == Move(encode_move(from_square as u32, t as u32, 0, 0, 0))),
                    distinct_moves(self.moves@),
                    forall|m: Move| #[trigger] listed(after_captures, m) ==> m.from_sq() != from_square
                        || ps[m.to_sq() as int] != Piece::NONE,
                    keeps_prefix(base, self.moves@),
                decreases quiets,
            {
                let to_square = lowest_square(quiets);
                let mv = Move::new(from_square, to_square, 0, MOVE_FLAG_NONE, 0);
                proof {
                    assert(bit(quiets0, to_square as int));
                    assert forall|s: int| 0 <= s < 64 && s != to_square implies !#[trigger] emits_quiet(s, mv) by {
                        if emits_quiet(s, mv) {
                            crate::movegen::lemma_move_fields(from_square as u32, s as u32, 0, 0, 0);
                        }
                    }
                    lemma_swept_fresh(after_captures, self.moves@, quiets0, quiets, emits_quiet, to_square as int, mv);
                }
                let ghost before = self.moves@;
                self.add_quiet_move(position, mv);
                proof {
                    lemma_distinct_push(before, ScoredMove { mv, score: quiet_score(pos, mv) });
                    lemma_keeps_prefix_push(before, ScoredMove { mv, score: quiet_score(pos, mv) });
                    lemma_keeps_prefix_trans(base, before, self.moves@);
                    assert forall|i: int| 0 <= i < self.moves@.len() implies #[trigger] generated(pos, self.moves@[i], captures_only) by {
                        if i < self.moves@.len() - 1 {
                            assert(self.moves@[i] == before[i]);
                        }
                    }
                    lemma_listed_push(before, ScoredMove { mv, score: quiet_score(pos, mv) });
                    assert(bit(quiets0, to_square as int));
                    assert forall|m: Move| #[trigger] listed(self.moves@, m) == (listed(before, m) || emits_quiet(lsb(quiets), m)) by {
                        assert(emits_quiet(lsb(quiets), m) == (m == mv));
                    }
                }
                let rest = without_lowest(quiets);
                proof {
                    lemma_swept_step(after_captures, before, self.moves@, quiets0, quiets, rest, emits_quiet);
                }
                quiets = rest;
            }
            proof {
                lemma_swept_end(after_captures, self.moves@, quiets0, emits_quiet);
            }
        }
        proof {
            assert forall|mv: Move| #[trigger] listed(self.moves@, mv) == (listed(base, mv)
                || reach_moves(pos, from_square as int, attacks, captures_only, mv)) by {
                if reach_moves(pos, from_square as int, attacks, captures_only, mv) {
                    let to = choose|to: int| 0 <= to < 64 && bit(attacks, to) && #[trigger] target_move(pos, from_square as int, to, captures_only, mv);
                    if ps[to] != Piece::NONE && ps[to].pcolor() == side.flip() {
                        assert(bit(captures0, to) && emits_capture(to, mv));
                    } else {
                        assert(bit(quiets0, to) && emits_quiet(to, mv));
                    }
                }
                if exists|s: int| 0 <= s < 64 && bit(captures0, s) && #[trigger] emits_capture(s, mv) {
                    let s = choose|s: int| 0 <= s < 64 && bit(captures0, s) && #[trigger] emits_capture(s, mv);
                    assert(target_move(pos, from_square as int, s, captures_only, mv));
                }
                if !captures_only && exists|s: int| 0 <= s < 64 && bit(quiets0, s) && #[trigger] emits_quiet(s, mv) {
                    let s = choose|s: int| 0 <= s < 64 && bit(quiets0, s) && #[trigger] emits_quiet(s, mv);
                    assert(target_move(pos, from_square as int, s, captures_only, mv));
                }
            }
        }
    }
}

/// The squares of the side's pieces of type `pt` hold exactly those pieces.
proof fn lemma_own_type_bits(pos: &Board, pt: PieceType)
    requires
        ready(pos),
        pt != PieceType::NONE,
    ensures
        forall|t: int| 0 <= t < 64 && #[trigger] bit(pos.bitboards[(pt.idx() * 4 + pos.side.idx()) as int], t) ==> {
            &&& pos.pieces[t] == Piece::of(pt, pos.side)
            &&& pos.pieces[t] != Piece::NONE
            &&& pos.pieces[t].pcolor() == pos.side
            &&& pos.pieces[t].ptype() == pt
        },
        forall|t: int| 0 <= t < 64 ==> (#[trigger] bit(pos.bitboards[(pt.idx() * 4 + pos.side.idx()) as int], t) <==> pos.pieces[t] == Piece::of(pt, pos.side)),
{
    lemma_ready_facts(pos);
    assert forall|t: int| 0 <= t < 64 implies (#[trigger] bit(pos.bitboards[(pt.idx() * 4 + pos.side.idx()) as int], t) <==> pos.pieces[t] == Piece::of(pt, pos.side)) by {
        crate::defs::lemma_piece_index_roundtrip(pos.pieces[t]);
    }
}

/// Whether a piece of type `pt` on `from` reaches `to`: by its jump for knights and
/// kings, along open lines for bishops, rooks and queens.
pub open spec fn piece_reaches(pos: Board, pt: PieceType, from: int, to: int) -> bool {
    let occ = occ_of(pos.pieces@);
    if pt == PieceType::KNIGHT {
        knight_move(from, to)
    } else if pt == PieceType::BISHOP {
        bishop_sees(occ, from, to)
    } else if pt == PieceType::ROOK {
        rook_sees(occ, from, to)
    } else if pt == PieceType::QUEEN {
        bishop_sees(occ, from, to) || rook_sees(occ, from, to)
    } else if pt == PieceType::KING {
        king_move(from, to)
    } else {
        false
    }
}

/// The moves of a piece of type `pt` standing on `from`.
pub open spec fn piece_moves(pos: Board, pt: PieceType, from: int, captures_only: bool, mv: Move) -> bool {
    exists|to: int| 0 <= to < 64 && piece_reaches(pos, pt, from, to) && #[trigger] target_move(pos, from, to, captures_only, mv)
}

/// The moves of the side to move's pieces of type `pt`.
pub open spec fn own_moves(pos: Board, pt: PieceType, captures_only: bool, mv: Move) -> bool {
    exists|s: int| 0 <= s < 64 && pos.pieces@[s] == Piece::of(pt, pos.side) && #[trigger] piece_moves(pos, pt, s, captures_only, mv)
}

/// Serializing the squares a piece reaches (its own pieces' squares aside) gives its
/// moves.
proof fn lemma_reach_moves(pos: Board, pt: PieceType, from: int, attacks: u64, captures_only: bool)
    requires
        forall|t: int| 0 <= t < 64 ==> (#[trigger] bit(attacks, t) ==> piece_reaches(pos, pt, from, t)),
        forall|t: int| 0 <= t < 64 && piece_reaches(pos, pt, from, t) && !(pos.pieces@[t] != Piece::NONE
            && pos.pieces@[t].pcolor() == pos.side) ==> #[trigger] bit(attacks, t),
        pos.side.is_side(),
    ensures
        forall|mv: Move| #[trigger] reach_moves(pos, from, attacks, captures_only, mv) == piece_moves(pos, pt, from, captures_only, mv),
{
    assert forall|mv: Move| #[trigger] reach_moves(pos, from, attacks, captures_only, mv) == piece_moves(pos, pt, from, captures_only, mv) by {
        if reach_moves(pos, from, attacks, captures_only, mv) {
            let to = choose|to: int| 0 <= to < 64 && bit(attacks, to) && #[trigger] target_move(pos, from, to, captures_only, mv);
            assert(piece_reaches(pos, pt, from, to));
        }
        if piece_moves(pos, pt, from, captures_only, mv) {
            let to = choose|to: int| 0 <= to < 64 && piece_reaches(pos, pt, from, to) && #[trigger] target_move(pos, from, to, captures_only, mv);
            assert(bit(attacks, to));
        }
    }
}

/// The loop over one type of piece: serializing each piece's reach adds its moves.
proof fn lemma_piece_step(
    pos: Board,
    pt: PieceType,
    captures_only: bool,
    base: Seq<ScoredMove>,
    before: Seq<ScoredMove>,
    after: Seq<ScoredMove>,
    bb0: u64,
    rem: u64,
    rem2: u64,
    attacks: u64,
)
    requires
        rem != 0,
        forall|t: int| 0 <= t < 64 ==> bit(rem2, t) == (bit(rem, t) && t != lsb(rem)),
        forall|t: int| 0 <= t < 64 && bit(rem, t) ==> bit(bb0, t),
        swept(base, before, bb0, rem, |s: int, m: Move| piece_moves(pos, pt, s, captures_only, m)),
        forall|mv: Move| #[trigger] listed(after, mv) == (listed(before, mv) || reach_moves(pos, lsb(rem), attacks, captures_only, mv)),
        forall|mv: Move| #[trigger] reach_moves(pos, lsb(rem), attacks, captures_only, mv) == piece_moves(pos, pt, lsb(rem), captures_only, mv),
    ensures
        swept(base, after, bb0, rem2, |s: int, m: Move| piece_moves(pos, pt, s, captures_only, m)),
{
    let emits = |s: int, m: Move| piece_moves(pos, pt, s, captures_only, m);
    assert forall|mv: Move| #[trigger] listed(after, mv) == (listed(before, mv) || emits(lsb(rem), mv)) by {
        assert(reach_moves(pos, lsb(rem), attacks, captures_only, mv) == piece_moves(pos, pt, lsb(rem), captures_only, mv));
    }
    lemma_swept_step(base, before, after, bb0, rem, rem2, emits);
}

/// At the end of the loop over one type of piece, every such piece has added its moves.
proof fn lemma_piece_end(pos: Board, pt: PieceType, captures_only: bool, base: Seq<ScoredMove>, moves: Seq<ScoredMove>, bb0: u64)
    requires
        swept(base, moves, bb0, 0, |s: int, m: Move| piece_moves(pos, pt, s, captures_only, m)),
        forall|t: int| 0 <= t < 64 ==> (#[trigger] bit(bb0, t) <==> pos.pieces@[t] == Piece::of(pt, pos.side)),
    ensures
        forall|mv: Move| #[trigger] listed(moves, mv) == (listed(base, mv) || own_moves(pos, pt, captures_only, mv)),
{
    let emits = |s: int, m: Move| piece_moves(pos, pt, s, captures_only, m);
    lemma_swept_end(base, moves, bb0, emits);
    assert forall|mv: Move| #[trigger] listed(moves, mv) == (listed(base, mv) || own_moves(pos, pt, captures_only, mv)) by {
        if own_moves(pos, pt, captures_only, mv) {
            let s = choose|s: int| 0 <= s < 64 && pos.pieces@[s] == Piece::of(pt, pos.side) && #[trigger] piece_moves(pos, pt, s, captures_only, mv);
            assert(bit(bb0, s) && emits(s, mv));
        }
        if exists|s: int| 0 <= s < 64 && bit(bb0, s) && #[trigger] emits(s, mv) {
            let s = choose|s: int| 0 <= s < 64 && bit(bb0, s) && #[trigger] emits(s, mv);
            assert(piece_moves(pos, pt, s, captures_only, mv));
        }
    }
}

/// A move of the piece on `s` starts on `s` and is no castle.
proof fn lemma_piece_moves_from(pos: Board, pt: PieceType, s: int, captures_only: bool, m: Move)
    requires
        0 <= s < 64,
        piece_moves(pos, pt, s, captures_only, m),
    ensures
        m.from_sq() == s,
        !m.castle_flag(),
{
    let to = choose|to: int| 0 <= to < 64 && piece_reaches(pos, pt, s, to) && #[trigger] target_move(pos, s, to, captures_only, m);
    crate::defs::lemma_piece_index_roundtrip(pos.pieces@[to]);
    crate::movegen::lemma_move_fields(s as u32, to as u32, pos.pieces@[to].idx() as u32, 0, 0);
    crate::movegen::lemma_move_fields(s as u32, to as u32, 0, 0, 0);
}

/// A move of the side to move's pieces of type `pt` starts on a square holding one.
proof fn lemma_own_moves_from(pos: Board, pt: PieceType, captures_only: bool, m: Move)
    requires
        ready(&pos),
        pt != PieceType::NONE,
        pt != PieceType::DRAGON,
        own_moves(pos, pt, captures_only, m),
    ensures
        m.from_sq() < 64,
        pos.pieces@[m.from_sq() as int].ptype() == pt,
        !m.castle_flag(),
{
    let s = choose|s: int| 0 <= s < 64 && pos.pieces@[s] == Piece::of(pt, pos.side) && #[trigger] piece_moves(pos, pt, s, captures_only, m);
    lemma_piece_moves_from(pos, pt, s, captures_only, m);
}

/// The moves a piece's reach adds have the key of its stage and square.
proof fn lemma_piece_keys(pos: Board, pt: PieceType, s: int, captures_only: bool, attacks: u64, before: Seq<ScoredMove>,
    after: Seq<ScoredMove>)
    requires
        0 <= s < 64,
        pos.pieces@[s].ptype() == pt,
        pt != PieceType::PAWN,
        keeps_prefix(before, after),
        distinct_moves(after),
        forall|mv: Move| #[trigger] listed(after, mv) == (listed(before, mv) || reach_moves(pos, s, attacks, captures_only, mv)),
        forall|mv: Move| #[trigger] reach_moves(pos, s, attacks, captures_only, mv) == piece_moves(pos, pt, s, captures_only, mv),
    ensures
        forall|i: int| before.len() <= i < after.len() ==> gen_key(pos, #[trigger] after[i].mv) == piece_stage(pt) * 64 + s,
{
    lemma_new_entries(before, after, |m: Move| reach_moves(pos, s, attacks, captures_only, m));
    assert forall|i: int| before.len() <= i < after.len() implies gen_key(pos, #[trigger] after[i].mv) == piece_stage(pt) * 64 + s by {
        let m = after[i].mv;
        assert(reach_moves(pos, s, attacks, captures_only, m));
        assert(piece_moves(pos, pt, s, captures_only, m));
        lemma_piece_moves_from(pos, pt, s, captures_only, m);
    }
}

impl MoveList {
    /// Knight moves of the side to move.
    fn generate_knight_moves(&mut self, position: &Board, captures_only: bool)
        requires
            old(self).wf(),
            ready(position),
            all_generated(*position, old(self).moves@, captures_only),
            distinct_moves(old(self).moves@),
            forall|m: Move| #[trigger] listed(old(self).moves@, m) ==> m.from_sq() < 64
                && position.pieces@[m.from_sq() as int].ptype() != PieceType::KNIGHT,
            in_generation_order(*position, old(self).moves@),
            keys_below(*position, old(self).moves@, 4 * 64int),
        ensures
            final(self).wf(),
            all_generated(*position, final(self).moves@, captures_only),
            forall|mv: Move| #[trigger] listed(final(self).moves@, mv) == (listed(old(self).moves@, mv)
                || own_moves(*position, PieceType::KNIGHT, captures_only, mv)),
            distinct_moves(final(self).moves@),
            in_generation_order(*position, final(self).moves@),
            keys_below(*position, final(self).moves@, 5 * 64int),
    {
        let ghost pos = *position;
        let ghost base = self.moves@;
        let side = position.side;
        let mut knights = position.bitboards[PieceType::KNIGHT.bb_index(side)];
        let ghost knights0 = knights;
        proof {
            lemma_own_type_bits(position, PieceType::KNIGHT);
            lemma_swept_start(base, knights0, |s: int, m: Move| piece_moves(pos, PieceType::KNIGHT, s, captures_only, m));
            lemma_order_start(pos, base, 4, knights0, 0);
        }
        while knights != 0
            invariant
                self.wf(),
                ready(position),
                pos == *position,
                side == position.side,
                all_generated(*position, self.moves@, captures_only),
                forall|t: int| 0 <= t < 64 && #[trigger] bit(knights, t) ==> bit(knights0, t),
                forall|t: int| 0 <= t < 64 ==> (#[trigger] bit(knights0, t) <==> position.pieces[t] == Piece::of(PieceType::KNIGHT, side)),
                swept(base, self.moves@, knights0, knights, |s: int, m: Move| piece_moves(pos, PieceType::KNIGHT, s, captures_only, m)),
                distinct_moves(self.moves@),
                forall|m: Move| #[trigger] listed(base, m) ==> m.from_sq() < 64
                    && position.pieces@[m.from_sq() as int].ptype() != PieceType::KNIGHT,
                order_ready(pos, self.moves@, 4, knights, 0),
            decreases knights,
        {
            let from_square = lowest_square(knights);
            let attacks = knight_attacks(from_square);
            let ghost before = self.moves@;
            proof {
                assert(bit(knights0, from_square as int));
                assert forall|m: Move| #[trigger] listed(self.moves@, m) implies m.from_sq() != from_square by {
                    if !listed(base, m) {
                        let s = choose|s: int| 0 <= s < 64 && bit(knights0, s) && !bit(knights, s)
                            && #[trigger] piece_moves(pos, PieceType::KNIGHT, s, captures_only, m);
                        lemma_piece_moves_from(pos, PieceType::KNIGHT, s, captures_only, m);
                    }
                }
                lemma_reach_moves(pos, PieceType::KNIGHT, from_square as int, attacks, captures_only);
            }
            self.serialize_moves(position, from_square, attacks, captures_only);
            let rest = without_lowest(knights);
            proof {
                lemma_piece_step(pos, PieceType::KNIGHT, captures_only, base, before, self.moves@, knights0, knights, rest, attacks);
                assert(pos.pieces@[from_square as int].ptype() == PieceType::KNIGHT);
                lemma_piece_keys(pos, PieceType::KNIGHT, from_square as int, captures_only, attacks, before, self.moves@);
                lemma_order_step(pos, before, self.moves@, 4, knights, rest, 0);
            }
            knights = rest;
        }
        proof {
            lemma_piece_end(pos, PieceType::KNIGHT, captures_only, base, self.moves@, knights0);
            lemma_order_end(pos, self.moves@, 4, 0);
        }
    }

    /// The moves of the side to move's pieces of one sliding type.
    fn generate_slider_moves(&mut self, position: &Board, piece_type: PieceType, captures_only: bool)
        requires
            old(self).wf(),
            ready(position),
            piece_type == PieceType::BISHOP || piece_type == PieceType::ROOK || piece_type == PieceType::QUEEN,
            all_generated(*position, old(self).moves@, captures_only),
            distinct_moves(old(self).moves@),
            forall|m: Move| #[trigger] listed(old(self).moves@, m) ==> m.from_sq() < 64
                && position.pieces@[m.from_sq() as int].ptype() != piece_type,
            in_generation_order(*position, old(self).moves@),
            keys_below(*position, old(self).moves@, piece_stage(piece_type) * 64),
        ensures
            final(self).wf(),
            all_generated(*position, final(self).moves@, captures_only),
            forall|mv: Move| #[trigger] listed(final(self).moves@, mv) == (listed(old(self).moves@, mv)
                || own_moves(*position, piece_type, captures_only, mv)),
            distinct_moves(final(self).moves@),
            in_generation_order(*position, final(self).moves@),
            keys_below(*position, final(self).moves@, (piece_stage(piece_type) + 1) * 64),
    {
        let ghost pos = *position;
        let ghost base = self.moves@;
        let side = position.side;
        let our_occupancy = position.occupancies[side.index()];
        let their_occupancy = position.occupancies[side.opposite().index()];
        let all = our_occupancy | their_occupancy;
        let mut pieces = position.bitboards[piece_type.bb_index(side)];
        let ghost pieces0 = pieces;
        proof {
            lemma_own_type_bits(position, piece_type);
            lemma_ready_facts(position);
            crate::movegen::attacks::lemma_board_occ(position);
            crate::bits::lemma_xor_algebra(position.occupancies[0], position.occupancies[1], 0, 0, 0);
            assert(all == occ_of(pos.pieces@));
            lemma_swept_start(base, pieces0, |s: int, m: Move| piece_moves(pos, piece_type, s, captures_only, m));
            lemma_order_start(pos, base, piece_stage(piece_type), pieces0, 0);
        }
        while pieces != 0
            invariant
                self.wf(),
                ready(position),
                pos == *position,
                side == position.side,
                piece_type == PieceType::BISHOP || piece_type == PieceType::ROOK || piece_type == PieceType::QUEEN,
                all == occ_of(pos.pieces@),
                forall|t: int| 0 <= t < 64 ==> #[trigger] bit(our_occupancy, t) == (pos.pieces@[t] != Piece::NONE && pos.pieces@[t].pcolor() == side),
                all_generated(*position, self.moves@, captures_only),
                forall|t: int| 0 <= t < 64 && #[trigger] bit(pieces, t) ==> bit(pieces0, t),
                forall|t: int| 0 <= t < 64 ==> (#[trigger] bit(pieces0, t) <==> position.pieces[t] == Piece::of(piece_type, side)),
                swept(base, self.moves@, pieces0, pieces, |s: int, m: Move| piece_moves(pos, piece_type, s, captures_only, m)),
                distinct_moves(self.moves@),
                forall|m: Move| #[trigger] listed(base, m) ==> m.from_sq() < 64
                    && position.pieces@[m.from_sq() as int].ptype() != piece_type,
                order_ready(pos, self.moves@, piece_stage(piece_type), pieces, 0),
            decreases pieces,
        {
            let from_square = lowest_square(pieces);
            let movement = if piece_type == PieceType::BISHOP {
                let seen = get_bishop_attacks(from_square, all);
                proof {
                    assert forall|t: int| 0 <= t < 64 implies (#[trigger] bit(seen & !our_occupancy, t) == (piece_reaches(pos, piece_type, from_square as int, t)
                        && !bit(our_occupancy, t))) by {
                        lemma_bit_not(our_occupancy, t as u64);
                        lemma_bit_and(seen, !our_occupancy, t as u64);
                    }
                }
                seen & !our_occupancy
            } else if piece_type == PieceType::ROOK {
                let seen = get_rook_attacks(from_square, all);
                proof {
                    assert forall|t: int| 0 <= t < 64 implies (#[trigger] bit(seen & !our_occupancy, t) == (piece_reaches(pos, piece_type, from_square as int, t)
                        && !bit(our_occupancy, t))) by {
                        lemma_bit_not(our_occupancy, t as u64);
                        lemma_bit_and(seen, !our_occupancy, t as u64);
                    }
                }
                seen & !our_occupancy
            } else {
                let diagonal = get_bishop_attacks(from_square, all);
                let straight = get_rook_attacks(from_square, all);
                let m = (diagonal & !our_occupancy) | (straight & !our_occupancy);
                proof {
                    assert forall|t: int| 0 <= t < 64 implies (#[trigger] bit(m, t) == (piece_reaches(pos, piece_type, from_square as int, t)
                        && !bit(our_occupancy, t))) by {
                        lemma_bit_not(our_occupancy, t as u64);
                        lemma_bit_or(diagonal & !our_occupancy, straight & !our_occupancy, t as u64);
                        lemma_bit_and(diagonal, !our_occupancy, t as u64);
                        lemma_bit_and(straight, !our_occupancy, t as u64);
                    }
                }
                m
            };
            proof {
                assert(bit(pieces0, from_square as int));
                lemma_reach_moves(pos, piece_type, from_square as int, movement, captures_only);
                assert forall|m: Move| #[trigger] listed(self.moves@, m) implies m.from_sq() != from_square by {
                    if !listed(base, m) {
                        let s = choose|s: int| 0 <= s < 64 && bit(pieces0, s) && !bit(pieces, s)
                            && #[trigger] piece_moves(pos, piece_type, s, captures_only, m);
                        lemma_piece_moves_from(pos, piece_type, s, captures_only, m);
                    }
                }
            }
            let ghost before = self.moves@;
            self.serialize_moves(position, from_square, movement, captures_only);
            let rest = without_lowest(pieces);
            proof {
                lemma_piece_step(pos, piece_type, captures_only, base, before, self.moves@, pieces0, pieces, rest, movement);
                assert(pos.pieces@[from_square as int].ptype() == piece_type);
                lemma_piece_keys(pos, piece_type, from_square as int, captures_only, movement, before, self.moves@);
                lemma_order_step(pos, before, self.moves@, piece_stage(piece_type), pieces, rest, 0);
            }
            pieces = rest;
        }
        proof {
            lemma_piece_end(pos, piece_type, captures_only, base, self.moves@, pieces0);
            lemma_order_end(pos, self.moves@, piece_stage(piece_type), 0);
        }
    }

    /// Bishop, rook and queen moves of the side to move.
    fn generate_sliding_moves(&mut self, position: &Board, captures_only: bool)
        requires
            old(self).wf(),
            ready(position),
            all_generated(*position, old(self).moves@, captures_only),
            distinct_moves(old(self).moves@),
            forall|m: Move| #[trigger] listed(old(self).moves@, m) ==> m.from_sq() < 64 && {
                let t = position.pieces@[m.from_sq() as int].ptype();
                t != PieceType::BISHOP && t != PieceType::ROOK && t != PieceType::QUEEN
            },
            in_generation_order(*position, old(self).moves@),
            keys_below(*position, old(self).moves@, 5 * 64int),
        ensures
            in_generation_order(*position, final(self).moves@),
            keys_below(*position, final(self).moves@, 8 * 64int),
            final(self).wf(),
            all_generated(*position, final(self).moves@, captures_only),
            forall|mv: Move| #[trigger] listed(final(self).moves@, mv) == (listed(old(self).moves@, mv)
                || own_moves(*position, PieceType::BISHOP, captures_only, mv)
                || own_moves(*position, PieceType::ROOK, captures_only, mv)
                || own_moves(*position, PieceType::QUEEN, captures_only, mv)),
            distinct_moves(final(self).moves@),
    {
        let ghost pos = *position;
        let ghost base = self.moves@;
        self.generate_slider_moves(position, PieceType::BISHOP, captures_only);
        proof {
            assert forall|m: Move| #[trigger] listed(self.moves@, m) implies m.from_sq() < 64
                && pos.pieces@[m.from_sq() as int].ptype() != PieceType::ROOK
                && pos.pieces@[m.from_sq() as int].ptype() != PieceType::QUEEN by {
                if !listed(base, m) {
                    lemma_own_moves_from(pos, PieceType::BISHOP, captures_only, m);
                }
            }
        }
        let ghost after_bishops = self.moves@;
        self.generate_slider_moves(position, PieceType::ROOK, captures_only);
        proof {
            assert forall|m: Move| #[trigger] listed(self.moves@, m) implies m.from_sq() < 64
                && pos.pieces@[m.from_sq() as int].ptype() != PieceType::QUEEN by {
                if !listed(after_bishops, m) {
                    lemma_own_moves_from(pos, PieceType::ROOK, captures_only, m);
                }
            }
        }
        self.generate_slider_moves(position, PieceType::QUEEN, captures_only);
    }
}

impl MoveList {
    /// King moves of the side to move (castling apart).
    fn generate_king_moves(&mut self, position: &Board, captures_only: bool)
        requires
            old(self).wf(),
            ready(position),
            all_generated(*position, old(self).moves@, captures_only),
            distinct_moves(old(self).moves@),
            forall|m: Move| #[trigger] listed(old(self).moves@, m) ==> m.from_sq() < 64
                && position.pieces@[m.from_sq() as int].ptype() != PieceType::KING,
            in_generation_order(*position, old(self).moves@),
            keys_below(*position, old(self).moves@, 8 * 64int),
        ensures
            final(self).wf(),
            all_generated(*position, final(self).moves@, captures_only),
            forall|mv: Move| #[trigger] listed(final(self).moves@, mv) == (listed(old(self).moves@, mv)
                || own_moves(*position, PieceType::KING, captures_only, mv)),
            distinct_moves(final(self).moves@),
            in_generation_order(*position, final(self).moves@),
            keys_below(*position, final(self).moves@, 9 * 64int),
    {
        let ghost pos = *position;
        let ghost ps = position.pieces@;
        let ghost base = self.moves@;
        let side = position.side;
        let our_pieces = position.occupancies[side.index()];
        let their_pieces = position.occupancies[side.opposite().index()];
        proof {
            lemma_own_type_bits(position, PieceType::KING);
            lemma_ready_facts(position);
        }
        let mut kings = position.bitboards[PieceType::KING.bb_index(side)];
        let ghost kings0 = kings;
        proof {
            lemma_swept_start(base, kings0, |s: int, m: Move| piece_moves(pos, PieceType::KING, s, captures_only, m));
            lemma_order_start(pos, base, 8, kings0, 0);
        }
        while kings != 0
            invariant
                self.wf(),
                ready(position),
                pos == *position,
                ps == position.pieces@,
                side == position.side,
                our_pieces == position.occupancies[side.idx() as int],
                their_pieces == position.occupancies[side.flip().idx() as int],
                all_generated(pos, self.moves@, captures_only),
                forall|t: int| 0 <= t < 64 && #[trigger] bit(kings, t) ==> bit(kings0, t),
                forall|t: int| 0 <= t < 64 ==> (#[trigger] bit(kings0, t) <==> ps[t] == Piece::of(PieceType::KING, side)),
                forall|t: int| 0 <= t < 64 ==> #[trigger] bit(our_pieces, t) == (ps[t] != Piece::NONE && ps[t].pcolor() == side),
                forall|t: int| 0 <= t < 64 ==> #[trigger] bit(their_pieces, t) == (ps[t] != Piece::NONE && ps[t].pcolor() == side.flip()),
                forall|t: int| 0 <= t < 64 ==> (#[trigger] ps[t] != Piece::NONE ==> (ps[t].pcolor() == side || ps[t].pcolor() == side.flip())),
                swept(base, self.moves@, kings0, kings, |s: int, m: Move| piece_moves(pos, PieceType::KING, s, captures_only, m)),
                distinct_moves(self.moves@),
                forall|m: Move| #[trigger] listed(base, m) ==> m.from_sq() < 64
                    && position.pieces@[m.from_sq() as int].ptype() != PieceType::KING,
                order_ready(pos, self.moves@, 8, kings, 0),
            decreases kings,
        {
            let from_sq = lowest_square(kings);
            let reach = king_attacks(from_sq);
            let mut moves = reach & !our_pieces;
            let ghost moves0 = moves;
            let ghost king_before = self.moves@;
            let ghost emits = |t: int, m: Move| target_move(pos, from_sq as int, t, captures_only, m);
            proof {
                assert(bit(kings0, from_sq as int));
                assert forall|m: Move| #[trigger] listed(king_before, m) implies m.from_sq() != from_sq by {
                    if !listed(base, m) {
                        let s = choose|s: int| 0 <= s < 64 && bit(kings0, s) && !bit(kings, s)
                            && #[trigger] piece_moves(pos, PieceType::KING, s, captures_only, m);
                        lemma_piece_moves_from(pos, PieceType::KING, s, captures_only, m);
                    }
                }
                assert forall|t: int| 0 <= t < 64 implies #[trigger] bit(moves0, t) == (king_move(from_sq as int, t)
                    && !(ps[t] != Piece::NONE && ps[t].pcolor() == side)) by {
                    lemma_bit_and(reach, !our_pieces, t as u64);
                    lemma_bit_not(our_pieces, t as u64);
                }
                lemma_swept_start(king_before, moves0, emits);
                assert(king_before.subrange(0, king_before.len() as int) =~= king_before);
            }
            while moves != 0
                invariant
                    self.wf(),
                    ready(position),
                    pos == *position,
                    ps == position.pieces@,
                    side == position.side,
                    from_sq < 64,
                    ps[from_sq as int] == Piece::of(PieceType::KING, side),
                    their_pieces == position.occupancies[side.flip().idx() as int],
                    all_generated(pos, self.moves@, captures_only),
                    forall|t: int| 0 <= t < 64 && #[trigger] bit(moves, t) ==> bit(moves0, t),
                    forall|t: int| 0 <= t < 64 ==> #[trigger] bit(moves0, t) == (king_move(from_sq as int, t)
                        && !(ps[t] != Piece::NONE && ps[t].pcolor() == side)),
                    forall|t: int| 0 <= t < 64 ==> #[trigger] bit(their_pieces, t) == (ps[t] != Piece::NONE && ps[t].pcolor() == side.flip()),
                    forall|t: int| 0 <= t < 64 ==> (#[trigger] ps[t] != Piece::NONE ==> (ps[t].pcolor() == side || ps[t].pcolor() == side.flip())),
                    swept(king_before, self.moves@, moves0, moves, emits),
                    forall|t: int, m: Move| #[trigger] emits(t, m) == target_move(pos, from_sq as int, t, captures_only, m),
                    distinct_moves(self.moves@),
                    forall|m: Move| #[trigger] listed(king_before, m) ==> m.from_sq() != from_sq,
                    keeps_prefix(king_before, self.moves@),
                decreases moves,
            {
                let to_sq = lowest_square(moves);
                let to_bb = 1u64 << to_sq;
                proof {
                    assert forall|s: int, m: Move| 0 <= s < 64 && #[trigger] emits(s, m) implies m.to_sq() == s && m.from_sq() == from_sq by {
                        crate::defs::lemma_piece_index_roundtrip(ps[s]);
                        crate::movegen::lemma_move_fields(from_sq as u32, s as u32, ps[s].idx() as u32, 0, 0);
                        crate::movegen::lemma_move_fields(from_sq as u32, s as u32, 0, 0, 0);
                    }
                }
                proof {
                    assert((to_bb & their_pieces != 0) == (((their_pieces >> (to_sq as u64)) & 1u64) == 1u64)) by (bit_vector)
                        requires
                            to_sq < 64,
                            to_bb == 1u64 << (to_sq as u64),
                    ;
                    assert((to_bb & their_pieces != 0) == bit(their_pieces, to_sq as int));
                    assert(bit(moves0, to_sq as int));
                    assert(to_sq != from_sq);
                }
                let ghost before = self.moves@;
                if (to_bb & their_pieces) != 0 {
                    let captured_piece = position.pieces[to_sq];
                    proof {
                        crate::defs::lemma_piece_index_roundtrip(captured_piece);
                    }
                    let mv = Move::new(from_sq, to_sq, captured_piece.index(), MOVE_FLAG_NONE, 0);
                    proof {
                        lemma_swept_fresh(king_before, self.moves@, moves0, moves, emits, to_sq as int, mv);
                    }
                    self.add_capture_move(position, PieceType::KING, mv);
                    proof {
                        lemma_keeps_prefix_push(before, self.moves@.last());
                        assert(self.moves@ =~= before.push(self.moves@.last()));
                        lemma_keeps_prefix_trans(king_before, before, self.moves@);
                        lemma_distinct_push(before, self.moves@.last());
                        assert(ps[from_sq as int].ptype() == PieceType::KING);
                        assert(generated(pos, self.moves@.last(), captures_only));
                        assert(self.moves@ =~= before.push(self.moves@.last()));
                        lemma_listed_push(before, self.moves@.last());
                        assert forall|m: Move| #[trigger] listed(self.moves@, m) == (listed(before, m) || emits(lsb(moves), m)) by {
                            assert(emits(lsb(moves), m) == (m == mv));
                        }
                    }
                } else if !captures_only {
                    let mv = Move::new(from_sq, to_sq, 0, MOVE_FLAG_NONE, 0);
                    proof {
                        lemma_swept_fresh(king_before, self.moves@, moves0, moves, emits, to_sq as int, mv);
                    }
                    self.add_quiet_move(position, mv);
                    proof {
                        lemma_keeps_prefix_push(before, ScoredMove { mv, score: quiet_score(pos, mv) });
                        lemma_keeps_prefix_trans(king_before, before, self.moves@);
                        lemma_distinct_push(before, ScoredMove { mv, score: quiet_score(pos, mv) });
                        assert(ps[to_sq as int] == Piece::NONE);
                        assert(generated(pos, self.moves@.last(), captures_only));
                        lemma_listed_push(before, ScoredMove { mv, score: quiet_score(pos, mv) });
                        assert forall|m: Move| #[trigger] listed(self.moves@, m) == (listed(before, m) || emits(lsb(moves), m)) by {
                            assert(emits(lsb(moves), m) == (m == mv));
                        }
                    }
                } else {
                    proof {
                        assert forall|m: Move| #[trigger] listed(self.moves@, m) == (listed(before, m) || emits(lsb(moves), m)) by {
                            assert(!emits(lsb(moves), m));
                        }
                    }
                }
                proof {
                    assert forall|i: int| 0 <= i < self.moves@.len() implies #[trigger] generated(pos, self.moves@[i], captures_only) by {
                        if i < before.len() {
                            assert(self.moves@[i] == before[i]);
                        }
                    }
                }
                let rest = without_lowest(moves);
                proof {
                    lemma_swept_step(king_before, before, self.moves@, moves0, moves, rest, emits);
                }
                moves = rest;
            }
            let ghost king_after = self.moves@;
            proof {
                lemma_swept_end(king_before, king_after, moves0, emits);
                assert forall|m: Move| #[trigger] listed(king_after, m) == (listed(king_before, m) || reach_moves(pos, from_sq as int, moves0, captures_only, m)) by {
                    if reach_moves(pos, from_sq as int, moves0, captures_only, m) {
                        let to = choose|to: int| 0 <= to < 64 && bit(moves0, to) && #[trigger] target_move(pos, from_sq as int, to, captures_only, m);
                        assert(emits(to, m));
                    }
                    if exists|t: int| 0 <= t < 64 && bit(moves0, t) && #[trigger] emits(t, m) {
                        let t = choose|t: int| 0 <= t < 64 && bit(moves0, t) && #[trigger] emits(t, m);
                        assert(target_move(pos, from_sq as int, t, captures_only, m));
                    }
                }
                lemma_reach_moves(pos, PieceType::KING, from_sq as int, moves0, captures_only);
            }
            let rest = without_lowest(kings);
            proof {
                lemma_piece_step(pos, PieceType::KING, captures_only, base, king_before, king_after, kings0, kings, rest, moves0);
                assert(pos.pieces@[from_sq as int].ptype() == PieceType::KING);
                lemma_piece_keys(pos, PieceType::KING, from_sq as int, captures_only, moves0, king_before, king_after);
                lemma_order_step(pos, king_before, king_after, 8, kings, rest, 0);
            }
            kings = rest;
        }
        proof {
            lemma_piece_end(pos, PieceType::KING, captures_only, base, self.moves@, kings0);
            lemma_order_end(pos, self.moves@, 8, 0);
        }
    }

    /// Castling moves: the right is kept, the squares between king and rook are empty,
    /// and the king and rook stand on their squares. Whether the king starts on or
    /// crosses an attacked square is left to `make_move`.
    fn generate_castle_moves(&mut self, position: &Board)
        requires
            old(self).wf(),
            ready(position),
            all_generated(*position, old(self).moves@, false),
            distinct_moves(old(self).moves@),
            forall|m: Move| #[trigger] listed(old(self).moves@, m) ==> !m.castle_flag(),
            in_generation_order(*position, old(self).moves@),
            keys_below(*position, old(self).moves@, 9 * 64int),
        ensures
            final(self).wf(),
            all_generated(*position, final(self).moves@, false),
            forall|mv: Move| #[trigger] listed(final(self).moves@, mv) == (listed(old(self).moves@, mv) || castle_moves(*position, mv)),
            distinct_moves(final(self).moves@),
            in_generation_order(*position, final(self).moves@),
    {
        let ghost pos = *position;
        let ghost ps = position.pieces@;
        let side = position.side;
        let occupancies = position.occupancies[0] | position.occupancies[1];
        proof {
            reveal(Board::bb_ok);
            assert forall|t: int| 0 <= t < 64 implies #[trigger] bit(occupancies, t) == (position.pieces[t] != Piece::NONE) by {
                lemma_bit_or(position.occupancies[0], position.occupancies[1], t as u64);
            }
            assert(((occupancies & 0x60u64 == 0) == (!bit(occupancies, 5) && !bit(occupancies, 6)))
                && ((occupancies & 0xEu64 == 0) == (!bit(occupancies, 1) && !bit(occupancies, 2) && !bit(occupancies, 3)))
                && ((occupancies & 0x6000000000000000u64 == 0) == (!bit(occupancies, 61) && !bit(occupancies, 62)))
                && ((occupancies & 0x0E00000000000000u64 == 0) == (!bit(occupancies, 57) && !bit(occupancies, 58) && !bit(occupancies, 59)))) by (bit_vector);
        }
        let ghost before = self.moves@;
        let (king_from, king_piece, rook_piece, short_right, long_right, short_mask, long_mask) = if side == Color::WHITE {
            (4usize, Piece::WHITE_KING, Piece::WHITE_ROOK, WHITE_KING_CASTLE, WHITE_QUEEN_CASTLE, 0x60u64, 0xEu64)
        } else {
            (60usize, Piece::BLACK_KING, Piece::BLACK_ROOK, BLACK_KING_CASTLE, BLACK_QUEEN_CASTLE, 0x6000000000000000u64, 0x0E00000000000000u64)
        };
        if (position.castle_permission & short_right) != 0 && (occupancies & short_mask) == 0
            && position.pieces[king_from] == king_piece && position.pieces[king_from + 3] == rook_piece {
            let mv = Move::new(king_from, king_from + 2, 0, MOVE_FLAG_CASTLE, 0);
            let ghost b = self.moves@;
            self.add_quiet_move(position, mv);
            proof {
                lemma_listed_push(b, ScoredMove { mv, score: quiet_score(pos, mv) });
                lemma_distinct_push(b, ScoredMove { mv, score: quiet_score(pos, mv) });
            }
        }
        let ghost middle = self.moves@;
        if (position.castle_permission & long_right) != 0 && (occupancies & long_mask) == 0
            && position.pieces[king_from] == king_piece && position.pieces[king_from - 4] == rook_piece {
            let mv = Move::new(king_from, king_from - 2, 0, MOVE_FLAG_CASTLE, 0);
            let ghost b = self.moves@;
            proof {
                crate::movegen::lemma_move_fields(king_from as u32, (king_from + 2) as u32, 0, 4, 0);
                crate::movegen::lemma_move_fields(king_from as u32, (king_from - 2) as u32, 0, 4, 0);
            }
            self.add_quiet_move(position, mv);
            proof {
                lemma_listed_push(b, ScoredMove { mv, score: quiet_score(pos, mv) });
                lemma_distinct_push(b, ScoredMove { mv, score: quiet_score(pos, mv) });
            }
        }
        proof {
            assert forall|i: int| 0 <= i < self.moves@.len() implies #[trigger] generated(pos, self.moves@[i], false) by {
                if i < before.len() {
                    assert(self.moves@[i] == before[i]);
                } else if i < middle.len() {
                    assert(self.moves@[i] == middle[i]);
                }
            }
            crate::movegen::lemma_move_fields(king_from as u32, (king_from + 2) as u32, 0, 4, 0);
            crate::movegen::lemma_move_fields(king_from as u32, (king_from - 2) as u32, 0, 4, 0);
            assert forall|i: int| 0 <= i < before.len() implies self.moves@[i] == before[i] by {
                if i < middle.len() {
                    assert(self.moves@[i] == middle[i]);
                }
            }
            assert(self.moves@.subrange(0, before.len() as int) =~= before);
            assert forall|i: int| before.len() <= i < self.moves@.len() implies
                gen_key(pos, #[trigger] self.moves@[i].mv) == 9 * 64 + king_from by {
                if i < middle.len() {
                    assert(self.moves@[i] == middle[i]);
                }
            }
            lemma_order_append(pos, before, self.moves@, 9 * 64 + king_from);
        }
    }
}

/// The castling moves the generator makes: for each right still held, when the squares
/// between king and rook are empty and both stand on their squares.
pub open spec fn castle_moves(pos: Board, mv: Move) -> bool {
    let ps = pos.pieces@;
    let c = pos.castle_permission;
    if pos.side == Color::WHITE {
        ||| (c & WHITE_KING_CASTLE != 0 && ps[5] == Piece::NONE && ps[6] == Piece::NONE && ps[4] == Piece::WHITE_KING
            && ps[7] == Piece::WHITE_ROOK && mv == Move(encode_move(4, 6, 0, 4, 0)))
        ||| (c & WHITE_QUEEN_CASTLE != 0 && ps[1] == Piece::NONE && ps[2] == Piece::NONE && ps[3] == Piece::NONE
            && ps[4] == Piece::WHITE_KING && ps[0] == Piece::WHITE_ROOK && mv == Move(encode_move(4, 2, 0, 4, 0)))
    } else {
        ||| (c & BLACK_KING_CASTLE != 0 && ps[61] == Piece::NONE && ps[62] == Piece::NONE && ps[60] == Piece::BLACK_KING
            && ps[63] == Piece::BLACK_ROOK && mv == Move(encode_move(60, 62, 0, 4, 0)))
        ||| (c & BLACK_QUEEN_CASTLE != 0 && ps[57] == Piece::NONE && ps[58] == Piece::NONE && ps[59] == Piece::NONE
            && ps[60] == Piece::BLACK_KING && ps[56] == Piece::BLACK_ROOK && mv == Move(encode_move(60, 58, 0, 4, 0)))
    }
}

/// The square a pawn of `side` pushes from to reach `to`, `steps` ranks ahead.
pub open spec fn push_origin(side: Color, to: int, steps: int) -> int {
    if side == Color::WHITE {
        to - 8 * steps
    } else {
        to + 8 * steps
    }
}

/// The moves of a pawn of the side to move from `from` to `to`, taking the piece with
/// index `cap` (0 for none): from the seventh rank (the second for black) the four
/// promotions, else the plain move.
pub open spec fn pawn_step(pos: Board, from: int, to: int, cap: nat, mv: Move) -> bool {
    let side = pos.side;
    let f = from as u32;
    let t = to as u32;
    let c = cap as u32;
    if from / 8 == (if side == Color::WHITE { 6int } else { 1int }) {
        ||| mv == Move(encode_move(f, t, c, 0, Piece::of(PieceType::QUEEN, side).idx() as u32))
        ||| mv == Move(encode_move(f, t, c, 0, Piece::of(PieceType::ROOK, side).idx() as u32))
        ||| mv == Move(encode_move(f, t, c, 0, Piece::of(PieceType::BISHOP, side).idx() as u32))
        ||| mv == Move(encode_move(f, t, c, 0, Piece::of(PieceType::KNIGHT, side).idx() as u32))
    } else {
        mv == Move(encode_move(f, t, c, 0, 0))
    }
}

impl MoveList {
    /// A pawn move to an empty square; from the seventh rank (second for black), the
    /// four promotions, queen first.
    fn add_quiet_pawn_move(&mut self, position: &Board, from: usize, to: usize)
        requires
            old(self).wf(),
            ready(position),
            from < 64,
            to < 64,
            from != to,
            position.pieces[from as int] == Piece::of(PieceType::PAWN, position.side),
            position.pieces[to as int] == Piece::NONE,
            all_generated(*position, old(self).moves@, false),
            distinct_moves(old(self).moves@),
            forall|m: Move| #[trigger] listed(old(self).moves@, m) ==> m.from_sq() != from || m.to_sq() != to,
        ensures
            final(self).wf(),
            all_generated(*position, final(self).moves@, false),
            forall|mv: Move| #[trigger] listed(final(self).moves@, mv) == (listed(old(self).moves@, mv)
                || pawn_step(*position, from as int, to as int, 0, mv)),
            distinct_moves(final(self).moves@),
            keeps_prefix(old(self).moves@, final(self).moves@),
    {
        let ghost pos = *position;
        let white = position.side == Color::WHITE;
        let promotion_rank: usize = if white { 6 } else { 1 };
        let (queen, rook, bishop, knight) = if white {
            (Piece::WHITE_QUEEN, Piece::WHITE_ROOK, Piece::WHITE_BISHOP, Piece::WHITE_KNIGHT)
        } else {
            (Piece::BLACK_QUEEN, Piece::BLACK_ROOK, Piece::BLACK_BISHOP, Piece::BLACK_KNIGHT)
        };
        let ghost before = self.moves@;
        if from / 8 == promotion_rank {
            let m1 = Move::new(from, to, 0, MOVE_FLAG_NONE, queen.index());
            let m2 = Move::new(from, to, 0, MOVE_FLAG_NONE, rook.index());
            let m3 = Move::new(from, to, 0, MOVE_FLAG_NONE, bishop.index());
            let m4 = Move::new(from, to, 0, MOVE_FLAG_NONE, knight.index());
            let ghost b0 = self.moves@;
            self.add_quiet_move(position, m1);
            let ghost b1 = self.moves@;
            self.add_quiet_move(position, m2);
            let ghost b2 = self.moves@;
            self.add_quiet_move(position, m3);
            let ghost b3 = self.moves@;
            self.add_quiet_move(position, m4);
            proof {
                lemma_listed_push(b0, ScoredMove { mv: m1, score: quiet_score(pos, m1) });
                lemma_listed_push(b1, ScoredMove { mv: m2, score: quiet_score(pos, m2) });
                lemma_listed_push(b2, ScoredMove { mv: m3, score: quiet_score(pos, m3) });
                lemma_listed_push(b3, ScoredMove { mv: m4, score: quiet_score(pos, m4) });
                lemma_distinct_push(b0, ScoredMove { mv: m1, score: quiet_score(pos, m1) });
                lemma_distinct_push(b1, ScoredMove { mv: m2, score: quiet_score(pos, m2) });
                lemma_distinct_push(b2, ScoredMove { mv: m3, score: quiet_score(pos, m3) });
                lemma_distinct_push(b3, ScoredMove { mv: m4, score: quiet_score(pos, m4) });
                assert forall|mv: Move| #[trigger] listed(self.moves@, mv) == (listed(before, mv)
                    || pawn_step(pos, from as int, to as int, 0, mv)) by {
                    assert(listed(self.moves@, mv) == (listed(b3, mv) || m4 == mv));
                    assert(listed(b3, mv) == (listed(b2, mv) || m3 == mv));
                    assert(listed(b2, mv) == (listed(b1, mv) || m2 == mv));
                    assert(listed(b1, mv) == (listed(b0, mv) || m1 == mv));
                }
            }
        } else {
            let m = Move::new(from, to, 0, MOVE_FLAG_NONE, 0);
            self.add_quiet_move(position, m);
            proof {
                lemma_listed_push(before, ScoredMove { mv: m, score: quiet_score(pos, m) });
                lemma_distinct_push(before, ScoredMove { mv: m, score: quiet_score(pos, m) });
            }
        }
        proof {
            assert forall|i: int| 0 <= i < self.moves@.len() implies #[trigger] generated(pos, self.moves@[i], false) by {
                if i < before.len() {
                    assert(self.moves@[i] == before[i]);
                }
            }
            assert(self.moves@.subrange(0, before.len() as int) =~= before);
        }
    }

    /// A pawn capture of the piece on `to`, with the four promotions from the seventh
    /// rank (second for black).
    fn add_capture_pawn_move(&mut self, position: &Board, from: usize, to: usize, captured: usize, Ghost(captures_only): Ghost<bool>)
        requires
            old(self).wf(),
            ready(position),
            from < 64,
            to < 64,
            from != to,
            position.pieces[from as int] == Piece::of(PieceType::PAWN, position.side),
            position.pieces[to as int] != Piece::NONE,
            position.pieces[to as int].pcolor() != position.side,
            captured == position.pieces[to as int].idx(),
            all_generated(*position, old(self).moves@, captures_only),
            distinct_moves(old(self).moves@),
            forall|m: Move| #[trigger] listed(old(self).moves@, m) ==> m.from_sq() != from || m.to_sq() != to,
        ensures
            final(self).wf(),
            all_generated(*position, final(self).moves@, captures_only),
            forall|mv: Move| #[trigger] listed(final(self).moves@, mv) == (listed(old(self).moves@, mv)
                || pawn_step(*position, from as int, to as int, captured as nat, mv)),
            distinct_moves(final(self).moves@),
            keeps_prefix(old(self).moves@, final(self).moves@),
    {
        let ghost pos = *position;
        proof {
            crate::defs::lemma_piece_index_roundtrip(position.pieces[to as int]);
        }
        let white = position.side == Color::WHITE;
        let promotion_rank: usize = if white { 6 } else { 1 };
        let (queen, rook, bishop, knight) = if white {
            (Piece::WHITE_QUEEN, Piece::WHITE_ROOK, Piece::WHITE_BISHOP, Piece::WHITE_KNIGHT)
        } else {
            (Piece::BLACK_QUEEN, Piece::BLACK_ROOK, Piece::BLACK_BISHOP, Piece::BLACK_KNIGHT)
        };
        let ghost before = self.moves@;
        if from / 8 == promotion_rank {
            let m1 = Move::new(from, to, captured, MOVE_FLAG_NONE, queen.index());
            let m2 = Move::new(from, to, captured, MOVE_FLAG_NONE, rook.index());
            let m3 = Move::new(from, to, captured, MOVE_FLAG_NONE, bishop.index());
            let m4 = Move::new(from, to, captured, MOVE_FLAG_NONE, knight.index());
            let ghost b0 = self.moves@;
            self.add_capture_move(position, PieceType::PAWN, m1);
            proof { assert(generated(pos, self.moves@.last(), captures_only)); }
            let ghost b1 = self.moves@;
            self.add_capture_move(position, PieceType::PAWN, m2);
            proof { assert(generated(pos, self.moves@.last(), captures_only)); }
            let ghost b2 = self.moves@;
            self.add_capture_move(position, PieceType::PAWN, m3);
            proof { assert(generated(pos, self.moves@.last(), captures_only)); }
            let ghost b3 = self.moves@;
            self.add_capture_move(position, PieceType::PAWN, m4);
            proof {
                assert(generated(pos, self.moves@.last(), captures_only));
                assert(b1 =~= b0.push(b1.last()));
                assert(b2 =~= b1.push(b2.last()));
                assert(b3 =~= b2.push(b3.last()));
                assert(self.moves@ =~= b3.push(self.moves@.last()));
                lemma_listed_push(b0, b1.last());
                lemma_listed_push(b1, b2.last());
                lemma_listed_push(b2, b3.last());
                lemma_listed_push(b3, self.moves@.last());
                lemma_distinct_push(b0, b1.last());
                lemma_distinct_push(b1, b2.last());
                lemma_distinct_push(b2, b3.last());
                lemma_distinct_push(b3, self.moves@.last());
                assert forall|mv: Move| #[trigger] listed(self.moves@, mv) == (listed(before, mv)
                    || pawn_step(pos, from as int, to as int, captured as nat, mv)) by {
                    assert(listed(self.moves@, mv) == (listed(b3, mv) || m4 == mv));
                    assert(listed(b3, mv) == (listed(b2, mv) || m3 == mv));
                    assert(listed(b2, mv) == (listed(b1, mv) || m2 == mv));
                    assert(listed(b1, mv) == (listed(b0, mv) || m1 == mv));
                }
                assert forall|i: int| 0 <= i < self.moves@.len() implies #[trigger] generated(pos, self.moves@[i], captures_only) by {
                    if i < before.len() {
                        assert(self.moves@[i] == b3[i]);
                        assert(b3[i] == b2[i]);
                        assert(b2[i] == b1[i]);
                        assert(b1[i] == before[i]);
                    } else if i == before.len() {
                        assert(self.moves@[i] == b3[i]);
                        assert(b3[i] == b2[i]);
                        assert(b2[i] == b1[i]);
                    } else if i == before.len() + 1 {
                        assert(self.moves@[i] == b3[i]);
                        assert(b3[i] == b2[i]);
                    } else if i == before.len() + 2 {
                        assert(self.moves@[i] == b3[i]);
                    }
                }
                assert forall|i: int| 0 <= i < before.len() implies self.moves@[i] == before[i] by {
                    assert(self.moves@[i] == b3[i]);
                    assert(b3[i] == b2[i]);
                    assert(b2[i] == b1[i]);
                }
                assert(self.moves@.subrange(0, before.len() as int) =~= before);
            }
        } else {
            let m = Move::new(from, to, captured, MOVE_FLAG_NONE, 0);
            self.add_capture_move(position, PieceType::PAWN, m);
            proof {
                assert(generated(pos, self.moves@.last(), captures_only));
                assert(self.moves@ =~= before.push(self.moves@.last()));
                lemma_listed_push(before, self.moves@.last());
                lemma_distinct_push(before, self.moves@.last());
                assert forall|i: int| 0 <= i < self.moves@.len() implies #[trigger] generated(pos, self.moves@[i], captures_only) by {
                    if i < before.len() {
                        assert(self.moves@[i] == before[i]);
                    }
                }
                lemma_keeps_prefix_push(before, self.moves@.last());
            }
        }
    }

    /// An en passant capture onto `to`.
    fn add_enpassant_move(&mut self, position: &Board, from: usize, to: usize)
        requires
            old(self).wf(),
        ensures
            final(self).wf(),
            final(self).moves@ == old(self).moves@.push(ScoredMove { mv: Move(crate::movegen::encode_move(from as u32, to as u32, 0, 1, 0)), score: quiet_score(*position, Move(crate::movegen::encode_move(from as u32, to as u32, 0, 1, 0))) }),
    {
        self.add_quiet_move(position, Move::new(from, to, 0, MOVE_FLAG_EN_PASSANT, 0));
    }
}

/// The squares of rank three and rank six.
proof fn lemma_rank_masks(t: u64)
    requires
        t < 64,
    ensures
        bit(RANK_BB_MASK[3], t as int) == (16 <= t < 24),
        bit(RANK_BB_MASK[6], t as int) == (40 <= t < 48),
{
    let m3 = RANK_BB_MASK[3];
    let m6 = RANK_BB_MASK[6];
    assert(m3 == 16711680u64);
    assert(m6 == 280375465082880u64);
    assert(((m3 >> t) & 1u64 == 1u64) == (16 <= t && t < 24) && ((m6 >> t) & 1u64 == 1u64) == (40 <= t && t < 48)) by (bit_vector)
        requires
            t < 64,
            m3 == 16711680u64,
            m6 == 280375465082880u64,
    ;
}

/// `to` is the empty square in front of an own pawn.
pub open spec fn push_target(pos: Board, to: int) -> bool {
    let from = push_origin(pos.side, to, 1);
    &&& 0 <= to < 64
    &&& 0 <= from < 64
    &&& pos.pieces@[from] == Piece::of(PieceType::PAWN, pos.side)
    &&& pos.pieces@[to] == Piece::NONE
}

/// `to` is two squares in front of an own pawn on its starting rank, with both squares
/// empty.
pub open spec fn double_target(pos: Board, to: int) -> bool {
    let side = pos.side;
    &&& 0 <= to < 64
    &&& (if side == Color::WHITE { 24 <= to < 32 } else { 32 <= to < 40 })
    &&& pos.pieces@[push_origin(side, to, 2)] == Piece::of(PieceType::PAWN, side)
    &&& pos.pieces@[push_origin(side, to, 1)] == Piece::NONE
    &&& pos.pieces@[to] == Piece::NONE
}

/// The double push to `to`.
pub open spec fn double_move(pos: Board, to: int, mv: Move) -> bool {
    mv == Move(encode_move(push_origin(pos.side, to, 2) as u32, to as u32, 0, 2, 0))
}

/// The pawn captures of the pawn on `from`.
pub open spec fn pawn_captures_from(pos: Board, from: int, mv: Move) -> bool {
    exists|to: int|
        0 <= to < 64 && pawn_capture(pos.side == Color::WHITE, from, to) && pos.pieces@[to] != Piece::NONE
            && pos.pieces@[to].pcolor() == pos.side.flip() && #[trigger] pawn_step(pos, from, to, pos.pieces@[to].idx(), mv)
}

/// The en passant square can be taken: it is empty and the pawn that just advanced past
/// it stands behind it.
pub open spec fn ep_open(pos: Board, e: int) -> bool {
    &&& pos.pieces@[e] == Piece::NONE
    &&& 0 <= crate::makemove::ep_victim(e, pos.side) < 64
    &&& pos.pieces@[crate::makemove::ep_victim(e, pos.side)] == Piece::of(PieceType::PAWN, pos.side.flip())
}

/// The en passant capture from `from` onto `e`.
pub open spec fn ep_step(from: int, e: int, mv: Move) -> bool {
    mv == Move(encode_move(from as u32, e as u32, 0, 1, 0))
}

pub open spec fn push_moves(pos: Board, mv: Move) -> bool {
    exists|to: int| push_target(pos, to) && #[trigger] pawn_step(pos, push_origin(pos.side, to, 1), to, 0, mv)
}

pub open spec fn double_moves(pos: Board, mv: Move) -> bool {
    exists|to: int| double_target(pos, to) && #[trigger] double_move(pos, to, mv)
}

pub open spec fn pawn_capture_moves(pos: Board, mv: Move) -> bool {
    exists|from: int| 0 <= from < 64 && pos.pieces@[from] == Piece::of(PieceType::PAWN, pos.side) && #[trigger] pawn_captures_from(pos, from, mv)
}

pub open spec fn ep_moves(pos: Board, mv: Move) -> bool {
    pos.en_passant matches Some(e) && ep_open(pos, e as int) && exists|from: int|
        0 <= from < 64 && pos.pieces@[from] == Piece::of(PieceType::PAWN, pos.side) && pawn_capture(pos.side != Color::WHITE, e as int, from)
            && #[trigger] ep_step(from, e as int, mv)
}

/// The pawn moves the generator makes: pushes, promotions, double pushes (these three
/// only when not restricted to captures), captures and en passant captures.
pub open spec fn pawn_moves(pos: Board, captures_only: bool, mv: Move) -> bool {
    ||| !captures_only && push_moves(pos, mv)
    ||| !captures_only && double_moves(pos, mv)
    ||| pawn_capture_moves(pos, mv)
    ||| ep_moves(pos, mv)
}

/// `m` starts on a square that holds something other than a pawn.
pub open spec fn non_pawn_origin(pos: Board, m: Move) -> bool {
    m.from_sq() < 64 && pos.pieces@[m.from_sq() as int].ptype() != PieceType::PAWN
}

/// A list keeps `base` as its first entries.
pub open spec fn keeps_prefix(base: Seq<ScoredMove>, moves: Seq<ScoredMove>) -> bool {
    base.len() <= moves.len() && moves.subrange(0, base.len() as int) == base
}

/// Adding an entry keeps the list as a prefix.
pub proof fn lemma_keeps_prefix_push(s: Seq<ScoredMove>, x: ScoredMove)
    ensures
        keeps_prefix(s, s.push(x)),
{
    assert(s.push(x).subrange(0, s.len() as int) =~= s);
}

/// Keeping a prefix is transitive.
pub proof fn lemma_keeps_prefix_trans(a: Seq<ScoredMove>, b: Seq<ScoredMove>, c: Seq<ScoredMove>)
    requires
        keeps_prefix(a, b),
        keeps_prefix(b, c),
    ensures
        keeps_prefix(a, c),
{
    assert forall|i: int| 0 <= i < a.len() implies c[i] == a[i] by {
        assert(c.subrange(0, b.len() as int)[i] == b[i]);
        assert(b.subrange(0, a.len() as int)[i] == a[i]);
    }
    assert(c.subrange(0, a.len() as int) =~= a);
}

/// The stage of generation a move belongs to: pawn pushes, double pushes, captures and
/// en passant captures; then the moves of knights, bishops, rooks, queens and the king;
/// then castling.
pub open spec fn gen_stage(pos: Board, mv: Move) -> int {
    let t = pos.pieces@[mv.from_sq() as int].ptype();
    if mv.castle_flag() {
        9
    } else if t == PieceType::PAWN {
        if mv.double_push_flag() {
            1
        } else if mv.en_passant_flag() {
            3
        } else if mv.captured_idx() != 0 {
            2
        } else {
            0
        }
    } else {
        piece_stage(t)
    }
}

/// The stage of the moves of a piece type other than the pawn.
pub open spec fn piece_stage(t: PieceType) -> int {
    if t == PieceType::KNIGHT {
        4
    } else if t == PieceType::BISHOP {
        5
    } else if t == PieceType::ROOK {
        6
    } else if t == PieceType::QUEEN {
        7
    } else if t == PieceType::KING {
        8
    } else {
        10
    }
}

/// Where a move stands in generation order: its stage, then its origin square.
pub open spec fn gen_key(pos: Board, mv: Move) -> int {
    gen_stage(pos, mv) * 64 + mv.from_sq()
}

/// The list comes in generation order: by stage, and within a stage by origin square,
/// lowest first.
pub open spec fn in_generation_order(pos: Board, moves: Seq<ScoredMove>) -> bool {
    forall|i: int, j: int| 0 <= i < j < moves.len() ==> gen_key(pos, #[trigger] moves[i].mv) <= gen_key(pos, #[trigger] moves[j].mv)
}

/// Every entry of the list comes before `bound` in generation order.
pub open spec fn keys_below(pos: Board, moves: Seq<ScoredMove>, bound: int) -> bool {
    forall|i: int| 0 <= i < moves.len() ==> gen_key(pos, #[trigger] moves[i].mv) < bound
}

/// A loop of stage `stage` over the squares of `rem`, each square `t` adding moves from
/// `t + off`: the list is in generation order, before the next stage, and before every
/// square still to come.
pub open spec fn order_ready(pos: Board, moves: Seq<ScoredMove>, stage: int, rem: u64, off: int) -> bool {
    &&& in_generation_order(pos, moves)
    &&& keys_below(pos, moves, (stage + 1) * 64)
    &&& forall|t: int| 0 <= t < 64 && #[trigger] bit(rem, t) ==> keys_below(pos, moves, stage * 64 + t + off + 1)
}

/// A loop starts ready when the list holds only earlier stages.
pub proof fn lemma_order_start(pos: Board, moves: Seq<ScoredMove>, stage: int, rem: u64, off: int)
    requires
        in_generation_order(pos, moves),
        keys_below(pos, moves, stage * 64),
        forall|t: int| 0 <= t < 64 && #[trigger] bit(rem, t) ==> 0 <= t + off,
    ensures
        order_ready(pos, moves, stage, rem, off),
{
}

/// The entries a step added are the moves it emits, when the list keeps its earlier
/// entries and lists no move twice.
pub proof fn lemma_new_entries(before: Seq<ScoredMove>, after: Seq<ScoredMove>, emits: spec_fn(Move) -> bool)
    requires
        keeps_prefix(before, after),
        distinct_moves(after),
        forall|mv: Move| #[trigger] listed(after, mv) == (listed(before, mv) || emits(mv)),
    ensures
        forall|i: int| before.len() <= i < after.len() ==> emits(#[trigger] after[i].mv),
{
    assert forall|i: int| before.len() <= i < after.len() implies emits(#[trigger] after[i].mv) by {
        assert(listed(after, after[i].mv));
        if listed(before, after[i].mv) {
            let j = choose|j: int| 0 <= j < before.len() && #[trigger] before[j].mv == after[i].mv;
            assert(after.subrange(0, before.len() as int)[j] == before[j]);
            assert(after[j] == before[j]);
            assert(after[j].mv != after[i].mv);
        }
    }
}

/// A step of a loop adds moves whose key is that of the lowest square left.
pub proof fn lemma_order_step(pos: Board, before: Seq<ScoredMove>, after: Seq<ScoredMove>, stage: int, rem: u64, rest: u64, off: int)
    requires
        order_ready(pos, before, stage, rem, off),
        rem != 0,
        forall|t: int| 0 <= t < 64 ==> bit(rest, t) == (bit(rem, t) && t != lsb(rem)),
        0 <= lsb(rem) + off < 64,
        keeps_prefix(before, after),
        forall|i: int| before.len() <= i < after.len() ==> gen_key(pos, #[trigger] after[i].mv) == stage * 64 + lsb(rem) + off,
    ensures
        order_ready(pos, after, stage, rest, off),
{
    crate::bits::lemma_lsb(rem);
    let k = stage * 64 + lsb(rem) + off;
    assert(keys_below(pos, before, k + 1));
    assert forall|i: int| 0 <= i < before.len() implies after[i] == before[i] by {
        assert(after.subrange(0, before.len() as int)[i] == before[i]);
    }
    assert forall|i: int, j: int| 0 <= i < j < after.len() implies gen_key(pos, #[trigger] after[i].mv) <= gen_key(pos, #[trigger] after[j].mv) by {
        if j < before.len() {
            assert(gen_key(pos, before[i].mv) <= gen_key(pos, before[j].mv));
        } else if i < before.len() {
            assert(gen_key(pos, before[i].mv) < k + 1);
        }
    }
    assert forall|t: int| 0 <= t < 64 && #[trigger] bit(rest, t) implies keys_below(pos, after, stage * 64 + t + off + 1) by {
        assert(t > lsb(rem));
        assert forall|i: int| 0 <= i < after.len() implies gen_key(pos, #[trigger] after[i].mv) < stage * 64 + t + off + 1 by {
            if i < before.len() {
                assert(gen_key(pos, before[i].mv) < k + 1);
            }
        }
    }
    assert forall|i: int| 0 <= i < after.len() implies gen_key(pos, #[trigger] after[i].mv) < (stage + 1) * 64 by {
        if i < before.len() {
            assert(gen_key(pos, before[i].mv) < (stage + 1) * 64);
        }
    }
}

/// Moves appended with one key after entries that come no later keep the order.
pub proof fn lemma_order_append(pos: Board, before: Seq<ScoredMove>, after: Seq<ScoredMove>, k: int)
    requires
        in_generation_order(pos, before),
        keys_below(pos, before, k + 1),
        keeps_prefix(before, after),
        forall|i: int| before.len() <= i < after.len() ==> gen_key(pos, #[trigger] after[i].mv) == k,
    ensures
        in_generation_order(pos, after),
        keys_below(pos, after, k + 1),
{
    assert forall|i: int| 0 <= i < before.len() implies after[i] == before[i] by {
        assert(after.subrange(0, before.len() as int)[i] == before[i]);
    }
    assert forall|i: int, j: int| 0 <= i < j < after.len() implies gen_key(pos, #[trigger] after[i].mv) <= gen_key(pos, #[trigger] after[j].mv) by {
        if j < before.len() {
            assert(gen_key(pos, before[i].mv) <= gen_key(pos, before[j].mv));
        } else if i < before.len() {
            assert(gen_key(pos, before[i].mv) < k + 1);
        }
    }
    assert forall|i: int| 0 <= i < after.len() implies gen_key(pos, #[trigger] after[i].mv) < k + 1 by {
        if i < before.len() {
            assert(gen_key(pos, before[i].mv) < k + 1);
        }
    }
}

/// At the end of a loop the list is in generation order, before the next stage.
pub proof fn lemma_order_end(pos: Board, moves: Seq<ScoredMove>, stage: int, off: int)
    requires
        order_ready(pos, moves, stage, 0, off),
    ensures
        in_generation_order(pos, moves),
        keys_below(pos, moves, (stage + 1) * 64),
{
}

/// A pawn push or double push goes to an empty square, and is neither an en passant
/// capture nor a castle.
proof fn lemma_quiet_pawn_fields(pos: Board, m: Move)
    requires
        ready(&pos),
        push_moves(pos, m) || double_moves(pos, m),
    ensures
        m.to_sq() < 64,
        pos.pieces@[m.to_sq() as int] == Piece::NONE,
        !m.en_passant_flag(),
        !m.castle_flag(),
{
    if push_moves(pos, m) {
        let to = choose|to: int| push_target(pos, to) && #[trigger] pawn_step(pos, push_origin(pos.side, to, 1), to, 0, m);
        lemma_pawn_step_plain(pos, push_origin(pos.side, to, 1), to, 0, m);
    } else {
        let to = choose|to: int| double_target(pos, to) && #[trigger] double_move(pos, to, m);
        crate::movegen::lemma_move_fields(push_origin(pos.side, to, 2) as u32, to as u32, 0, 2, 0);
    }
}

/// A capture by the pawn on `f` starts there and is a plain capture.
proof fn lemma_capture_pawn_fields(pos: Board, f: int, m: Move)
    requires
        ready(&pos),
        0 <= f < 64,
        pawn_captures_from(pos, f, m),
    ensures
        m.from_sq() == f,
        !m.en_passant_flag(),
        !m.double_push_flag(),
        !m.castle_flag(),
        m.captured_idx() != 0,
{
    let to = choose|to: int|
        0 <= to < 64 && pawn_capture(pos.side == Color::WHITE, f, to) && pos.pieces@[to] != Piece::NONE
            && pos.pieces@[to].pcolor() == pos.side.flip() && #[trigger] pawn_step(pos, f, to, pos.pieces@[to].idx(), m);
    crate::defs::lemma_piece_index_roundtrip(pos.pieces@[to]);
    lemma_pawn_step_plain(pos, f, to, pos.pieces@[to].idx(), m);
}

/// A pawn move starts on a square holding a pawn and is no castle.
proof fn lemma_pawn_moves_origin(pos: Board, captures_only: bool, m: Move)
    requires
        ready(&pos),
        pawn_moves(pos, captures_only, m),
    ensures
        m.from_sq() < 64,
        pos.pieces@[m.from_sq() as int].ptype() == PieceType::PAWN,
        !m.castle_flag(),
{
    let side = pos.side;
    if !captures_only && push_moves(pos, m) {
        let to = choose|to: int| push_target(pos, to) && #[trigger] pawn_step(pos, push_origin(side, to, 1), to, 0, m);
        lemma_pawn_step_plain(pos, push_origin(side, to, 1), to, 0, m);
    } else if !captures_only && double_moves(pos, m) {
        let to = choose|to: int| double_target(pos, to) && #[trigger] double_move(pos, to, m);
        crate::movegen::lemma_move_fields(push_origin(side, to, 2) as u32, to as u32, 0, 2, 0);
    } else if pawn_capture_moves(pos, m) {
        let f = choose|from: int| 0 <= from < 64 && pos.pieces@[from] == Piece::of(PieceType::PAWN, side) && #[trigger] pawn_captures_from(pos, from, m);
        lemma_capture_pawn_fields(pos, f, m);
    } else {
        let e = pos.en_passant->0 as int;
        let f = choose|from: int|
            0 <= from < 64 && pos.pieces@[from] == Piece::of(PieceType::PAWN, side) && pawn_capture(side != Color::WHITE, e, from)
                && #[trigger] ep_step(from, e, m);
        crate::movegen::lemma_move_fields(f as u32, e as u32, 0, 1, 0);
    }
}

impl MoveList {
    /// Pawn moves of the side to move: pushes and double pushes (unless
    /// `captures_only`), captures, and en passant captures.
    fn generate_pawn_moves(&mut self, position: &Board, captures_only: bool)
        requires
            old(self).wf(),
            ready(position),
            all_generated(*position, old(self).moves@, captures_only),
            distinct_moves(old(self).moves@),
            forall|m: Move| #[trigger] listed(old(self).moves@, m) ==> non_pawn_origin(*position, m),
        ensures
            final(self).wf(),
            all_generated(*position, final(self).moves@, captures_only),
            forall|mv: Move| #[trigger] listed(final(self).moves@, mv) == (listed(old(self).moves@, mv)
                || pawn_moves(*position, captures_only, mv)),
            distinct_moves(final(self).moves@),
            keeps_prefix(old(self).moves@, final(self).moves@),
            in_generation_order(*position, old(self).moves@) && keys_below(*position, old(self).moves@, 0)
                ==> in_generation_order(*position, final(self).moves@) && keys_below(*position, final(self).moves@, 4 * 64int),
    {
        let ghost pos = *position;
        let ghost ps = position.pieces@;
        let ghost base = self.moves@;
        let ghost ord = in_generation_order(pos, base) && keys_below(pos, base, 0);
        proof {
            assert(base.subrange(0, base.len() as int) =~= base);
        }
        let side = position.side;
        let white = side == Color::WHITE;
        let empty_squares: u64 = !(position.occupancies[0] | position.occupancies[1]);
        let our_pawns = position.bitboards[PieceType::PAWN.bb_index(side)];
        let their_pieces = position.occupancies[side.opposite().index()];
        proof {
            lemma_own_type_bits(position, PieceType::PAWN);
            lemma_ready_facts(position);
            reveal(Board::bb_ok);
            assert forall|t: int| 0 <= t < 64 implies #[trigger] bit(empty_squares, t) == (ps[t] == Piece::NONE) by {
                lemma_bit_not(position.occupancies[0] | position.occupancies[1], t as u64);
                lemma_bit_or(position.occupancies[0], position.occupancies[1], t as u64);
            }
        }

        let ghost pushes_done = self.moves@;
        let ghost off1: int = if white { -8 } else { 8 };
        let ghost off2: int = if white { -16 } else { 16 };
        let ghost emits_push = |to: int, m: Move| pawn_step(pos, push_origin(side, to, 1), to, 0, m);
        let ghost emits_double = |to: int, m: Move| double_move(pos, to, m);
        let ghost mut single0: u64 = 0;
        let ghost mut double0: u64 = 0;
        if !captures_only {
            let mut single_pushes = if white {
                (our_pawns << 8u64) & empty_squares
            } else {
                (our_pawns >> 8u64) & empty_squares
            };
            proof {
                single0 = single_pushes;
                assert forall|t: int| 0 <= t < 64 implies #[trigger] bit(single_pushes, t) == push_target(pos, t) by {
                    if white {
                        lemma_bit_and(our_pawns << 8u64, empty_squares, t as u64);
                        lemma_bit_shl(our_pawns, 8, t as u64);
                    } else {
                        lemma_bit_and(our_pawns >> 8u64, empty_squares, t as u64);
                        lemma_bit_shr(our_pawns, 8, t as u64);
                    }
                }
            }
            let rank_mask = if white { RANK_BB_MASK[3] } else { RANK_BB_MASK[6] };
            let mut double_pushes = if white {
                ((single_pushes & rank_mask) << 8u64) & empty_squares
            } else {
                ((single_pushes & rank_mask) >> 8u64) & empty_squares
            };
            proof {
                double0 = double_pushes;
                assert forall|t: int| 0 <= t < 64 implies #[trigger] bit(double_pushes, t) == double_target(pos, t) by {
                    if white {
                        lemma_bit_and((single_pushes & rank_mask) << 8u64, empty_squares, t as u64);
                        lemma_bit_shl(single_pushes & rank_mask, 8, t as u64);
                        if t >= 8 {
                            lemma_bit_and(single_pushes, rank_mask, (t - 8) as u64);
                            lemma_rank_masks((t - 8) as u64);
                        }
                    } else {
                        lemma_bit_and((single_pushes & rank_mask) >> 8u64, empty_squares, t as u64);
                        lemma_bit_shr(single_pushes & rank_mask, 8, t as u64);
                        if t + 8 < 64 {
                            lemma_bit_and(single_pushes, rank_mask, (t + 8) as u64);
                            lemma_rank_masks((t + 8) as u64);
                        }
                    }
                }
                lemma_swept_start(base, single0, emits_push);
                if ord {
                    lemma_order_start(pos, base, 0, single0, off1);
                }
            }

            while single_pushes != 0
                invariant
                    self.wf(),
                    ready(position),
                    pos == *position,
                    ps == position.pieces@,
                    side == position.side,
                    white == (side == Color::WHITE),
                    !captures_only,
                    all_generated(pos, self.moves@, captures_only),
                    forall|t: int| 0 <= t < 64 && #[trigger] bit(single_pushes, t) ==> bit(single0, t),
                    forall|t: int| 0 <= t < 64 ==> #[trigger] bit(single0, t) == push_target(pos, t),
                    swept(base, self.moves@, single0, single_pushes, emits_push),
                    forall|t: int, m: Move| #[trigger] emits_push(t, m) == pawn_step(pos, push_origin(side, t, 1), t, 0, m),
                    distinct_moves(self.moves@),
                    forall|m: Move| #[trigger] listed(base, m) ==> non_pawn_origin(pos, m),
                    keeps_prefix(base, self.moves@),
                    off1 == (if white { -8int } else { 8int }),
                    ord ==> order_ready(pos, self.moves@, 0, single_pushes, off1),
                decreases single_pushes,
            {
                let to_square = lowest_square(single_pushes);
                let from_square = if white { to_square - 8 } else { to_square + 8 };
                let ghost before = self.moves@;
                proof {
                    assert(bit(single0, to_square as int));
                    assert(ps[from_square as int] == Piece::of(PieceType::PAWN, side));
                    assert(Piece::of(PieceType::PAWN, side).ptype() == PieceType::PAWN);
                    assert forall|m: Move| #[trigger] listed(self.moves@, m) implies m.from_sq() != from_square || m.to_sq() != to_square by {
                        if !listed(base, m) {
                            let t = choose|t: int| 0 <= t < 64 && bit(single0, t) && !bit(single_pushes, t) && #[trigger] emits_push(t, m);
                            lemma_pawn_step_plain(pos, push_origin(side, t, 1), t, 0, m);
                        }
                    }
                }
                self.add_quiet_pawn_move(position, from_square, to_square);
                let rest = without_lowest(single_pushes);
                proof {
                    lemma_keeps_prefix_trans(base, before, self.moves@);
                    assert forall|m: Move| #[trigger] listed(self.moves@, m) == (listed(before, m) || emits_push(lsb(single_pushes), m)) by {
                        assert(emits_push(lsb(single_pushes), m) == pawn_step(pos, from_square as int, to_square as int, 0, m));
                    }
                    lemma_swept_step(base, before, self.moves@, single0, single_pushes, rest, emits_push);
                    if ord {
                        lemma_new_entries(before, self.moves@, |m: Move| pawn_step(pos, from_square as int, to_square as int, 0, m));
                        assert forall|i: int| before.len() <= i < self.moves@.len() implies
                            gen_key(pos, #[trigger] self.moves@[i].mv) == 0 * 64 + lsb(single_pushes) + off1 by {
                            lemma_pawn_step_plain(pos, from_square as int, to_square as int, 0, self.moves@[i].mv);
                        }
                        lemma_order_step(pos, before, self.moves@, 0, single_pushes, rest, off1);
                    }
                }
                single_pushes = rest;
            }
            proof {
                lemma_swept_end(base, self.moves@, single0, emits_push);
                pushes_done = self.moves@;
                if ord {
                    lemma_order_end(pos, pushes_done, 0, off1);
                    lemma_order_start(pos, pushes_done, 1, double0, off2);
                }
                lemma_swept_start(pushes_done, double0, emits_double);
                assert forall|m: Move| #[trigger] listed(pushes_done, m) implies !m.double_push_flag() || non_pawn_origin(pos, m) by {
                    if !listed(base, m) {
                        let t = choose|t: int| 0 <= t < 64 && bit(single0, t) && #[trigger] emits_push(t, m);
                        lemma_pawn_step_plain(pos, push_origin(side, t, 1), t, 0, m);
                    }
                }
            }

            while double_pushes != 0
                invariant
                    self.wf(),
                    ready(position),
                    pos == *position,
                    ps == position.pieces@,
                    side == position.side,
                    white == (side == Color::WHITE),
                    !captures_only,
                    all_generated(pos, self.moves@, captures_only),
                    forall|t: int| 0 <= t < 64 && #[trigger] bit(double_pushes, t) ==> bit(double0, t),
                    forall|t: int| 0 <= t < 64 ==> #[trigger] bit(double0, t) == double_target(pos, t),
                    swept(pushes_done, self.moves@, double0, double_pushes, emits_double),
                    forall|t: int, m: Move| #[trigger] emits_double(t, m) == double_move(pos, t, m),
                    distinct_moves(self.moves@),
                    forall|m: Move| #[trigger] listed(pushes_done, m) ==> !m.double_push_flag() || non_pawn_origin(pos, m),
                    keeps_prefix(base, self.moves@),
                    off2 == (if white { -16int } else { 16int }),
                    ord ==> order_ready(pos, self.moves@, 1, double_pushes, off2),
                decreases double_pushes,
            {
                let to_square = lowest_square(double_pushes);
                let from_square = if white { to_square - 16 } else { to_square + 16 };
                let ghost before = self.moves@;
                proof {
                    assert(bit(double0, to_square as int));
                }
                let mv = Move::new(from_square, to_square, 0, MOVE_FLAG_PAWN_START, 0);
                proof {
                    assert(ps[from_square as int] == Piece::of(PieceType::PAWN, side));
                    assert(Piece::of(PieceType::PAWN, side).ptype() == PieceType::PAWN);
                    assert forall|t: int| 0 <= t < 64 && t != to_square && bit(double0, t) implies !#[trigger] emits_double(t, mv) by {
                        crate::movegen::lemma_move_fields(push_origin(side, t, 2) as u32, t as u32, 0, 2, 0);
                    }
                    lemma_swept_fresh(pushes_done, self.moves@, double0, double_pushes, emits_double, to_square as int, mv);
                }
                self.add_quiet_move(position, mv);
                proof {
                    lemma_distinct_push(before, ScoredMove { mv, score: quiet_score(pos, mv) });
                    lemma_keeps_prefix_push(before, ScoredMove { mv, score: quiet_score(pos, mv) });
                    lemma_keeps_prefix_trans(base, before, self.moves@);
                }
                let rest = without_lowest(double_pushes);
                proof {
                    assert(generated(pos, self.moves@.last(), captures_only));
                    assert forall|i: int| 0 <= i < self.moves@.len() implies #[trigger] generated(pos, self.moves@[i], captures_only) by {
                        if i < before.len() {
                            assert(self.moves@[i] == before[i]);
                        }
                    }
                    lemma_listed_push(before, ScoredMove { mv, score: quiet_score(pos, mv) });
                    assert forall|m: Move| #[trigger] listed(self.moves@, m) == (listed(before, m) || emits_double(lsb(double_pushes), m)) by {
                        assert(emits_double(lsb(double_pushes), m) == (m == mv));
                    }
                    lemma_swept_step(pushes_done, before, self.moves@, double0, double_pushes, rest, emits_double);
                    if ord {
                        crate::movegen::lemma_move_fields(from_square as u32, to_square as u32, 0, 2, 0);
                        assert forall|i: int| before.len() <= i < self.moves@.len() implies
                            gen_key(pos, #[trigger] self.moves@[i].mv) == 1 * 64 + lsb(double_pushes) + off2 by {
                            assert(self.moves@[i].mv == mv);
                        }
                        lemma_order_step(pos, before, self.moves@, 1, double_pushes, rest, off2);
                    }
                }
                double_pushes = rest;
            }
            proof {
                if ord {
                    lemma_order_end(pos, self.moves@, 1, off2);
                }
                lemma_swept_end(pushes_done, self.moves@, double0, emits_double);
                assert forall|mv: Move| #[trigger] listed(self.moves@, mv) == (listed(base, mv)
                    || push_moves(pos, mv) || double_moves(pos, mv)) by {
                    if push_moves(pos, mv) {
                        let to = choose|to: int| push_target(pos, to) && #[trigger] pawn_step(pos, push_origin(side, to, 1), to, 0, mv);
                        assert(bit(single0, to) && emits_push(to, mv));
                    }
                    if double_moves(pos, mv) {
                        let to = choose|to: int| double_target(pos, to) && #[trigger] double_move(pos, to, mv);
                        assert(bit(double0, to) && emits_double(to, mv));
                    }
                    if exists|t: int| 0 <= t < 64 && bit(single0, t) && #[trigger] emits_push(t, mv) {
                        let t = choose|t: int| 0 <= t < 64 && bit(single0, t) && #[trigger] emits_push(t, mv);
                        assert(push_target(pos, t) && pawn_step(pos, push_origin(side, t, 1), t, 0, mv));
                    }
                    if exists|t: int| 0 <= t < 64 && bit(double0, t) && #[trigger] emits_double(t, mv) {
                        let t = choose|t: int| 0 <= t < 64 && bit(double0, t) && #[trigger] emits_double(t, mv);
                        assert(double_target(pos, t) && double_move(pos, t, mv));
                    }
                }
            }
        }
        let ghost quiet_done = self.moves@;
        proof {
            assert(forall|mv: Move| #[trigger] listed(quiet_done, mv) == (listed(base, mv)
                || (!captures_only && push_moves(pos, mv)) || (!captures_only && double_moves(pos, mv))));
            assert forall|m: Move| #[trigger] listed(quiet_done, m) implies non_pawn_origin(pos, m) || (m.to_sq() < 64
                && ps[m.to_sq() as int] == Piece::NONE && !m.en_passant_flag()) by {
                if !listed(base, m) {
                    lemma_quiet_pawn_fields(pos, m);
                }
            }
        }

        let mut pawns = our_pawns;
        let ghost emits_capture = |from: int, m: Move| pawn_captures_from(pos, from, m);
        proof {
            lemma_swept_start(quiet_done, our_pawns, emits_capture);
            if ord {
                lemma_order_start(pos, quiet_done, 2, our_pawns, 0);
            }
        }
        while pawns != 0
            invariant
                self.wf(),
                ready(position),
                pos == *position,
                ps == position.pieces@,
                side == position.side,
                white == (side == Color::WHITE),
                their_pieces == position.occupancies[side.flip().idx() as int],
                all_generated(pos, self.moves@, captures_only),
                forall|t: int| 0 <= t < 64 && #[trigger] bit(pawns, t) ==> bit(our_pawns, t),
                forall|t: int| 0 <= t < 64 ==> (#[trigger] bit(our_pawns, t) <==> ps[t] == Piece::of(PieceType::PAWN, side)),
                forall|t: int| 0 <= t < 64 ==> #[trigger] bit(their_pieces, t) == (ps[t] != Piece::NONE && ps[t].pcolor() == side.flip()),
                swept(quiet_done, self.moves@, our_pawns, pawns, emits_capture),
                forall|t: int, m: Move| #[trigger] emits_capture(t, m) == pawn_captures_from(pos, t, m),
                distinct_moves(self.moves@),
                forall|m: Move| #[trigger] listed(quiet_done, m) ==> non_pawn_origin(pos, m) || (m.to_sq() < 64
                    && ps[m.to_sq() as int] == Piece::NONE && !m.en_passant_flag()),
                keeps_prefix(base, self.moves@),
                ord ==> order_ready(pos, self.moves@, 2, pawns, 0),
            decreases pawns,
        {
            let from_square = lowest_square(pawns);
            let reach = pawn_attacks(white, from_square);
            let mut valid_captures = reach & their_pieces;
            let ghost valid0 = valid_captures;
            let ghost pawn_before = self.moves@;
            let ghost emits = |to: int, m: Move| ps[to] != Piece::NONE && ps[to].pcolor() == side.flip()
                && pawn_step(pos, from_square as int, to, ps[to].idx(), m);
            proof {
                assert(bit(our_pawns, from_square as int));
                assert(Piece::of(PieceType::PAWN, side).ptype() == PieceType::PAWN);
                assert forall|m: Move| #[trigger] listed(pawn_before, m) implies m.from_sq() != from_square
                    || (m.to_sq() < 64 && ps[m.to_sq() as int] == Piece::NONE) by {
                    if !listed(quiet_done, m) {
                        let t = choose|t: int| 0 <= t < 64 && bit(our_pawns, t) && !bit(pawns, t) && #[trigger] emits_capture(t, m);
                        lemma_capture_pawn_fields(pos, t, m);
                    }
                }
                assert forall|t: int| 0 <= t < 64 implies #[trigger] bit(valid0, t) == (pawn_capture(white, from_square as int, t)
                    && ps[t] != Piece::NONE && ps[t].pcolor() == side.flip()) by {
                    lemma_bit_and(reach, their_pieces, t as u64);
                }
                lemma_swept_start(pawn_before, valid0, emits);
                assert(pawn_before.subrange(0, pawn_before.len() as int) =~= pawn_before);
            }
            while valid_captures != 0
                invariant
                    self.wf(),
                    ready(position),
                    pos == *position,
                    ps == position.pieces@,
                    side == position.side,
                    white == (side == Color::WHITE),
                    from_square < 64,
                    ps[from_square as int] == Piece::of(PieceType::PAWN, side),
                    all_generated(pos, self.moves@, captures_only),
                    forall|t: int| 0 <= t < 64 && #[trigger] bit(valid_captures, t) ==> bit(valid0, t),
                    forall|t: int| 0 <= t < 64 ==> #[trigger] bit(valid0, t) == (pawn_capture(white, from_square as int, t)
                        && ps[t] != Piece::NONE && ps[t].pcolor() == side.flip()),
                    swept(pawn_before, self.moves@, valid0, valid_captures, emits),
                    forall|t: int, m: Move| #[trigger] emits(t, m) == (ps[t] != Piece::NONE && ps[t].pcolor() == side.flip()
                        && pawn_step(pos, from_square as int, t, ps[t].idx(), m)),
                    distinct_moves(self.moves@),
                    forall|m: Move| #[trigger] listed(pawn_before, m) ==> m.from_sq() != from_square
                        || (m.to_sq() < 64 && ps[m.to_sq() as int] == Piece::NONE),
                    keeps_prefix(base, self.moves@),
                    keeps_prefix(pawn_before, self.moves@),
                decreases valid_captures,
            {
                let to_square = lowest_square(valid_captures);
                let captured_piece = position.pieces[to_square];
                let ghost before = self.moves@;
                proof {
                    assert(bit(valid0, to_square as int));
                    assert forall|m: Move| #[trigger] listed(self.moves@, m) implies m.from_sq() != from_square || m.to_sq() != to_square by {
                        if !listed(pawn_before, m) {
                            let t = choose|t: int| 0 <= t < 64 && bit(valid0, t) && !bit(valid_captures, t) && #[trigger] emits(t, m);
                            crate::defs::lemma_piece_index_roundtrip(ps[t]);
                            lemma_pawn_step_plain(pos, from_square as int, t, ps[t].idx(), m);
                        }
                    }
                }
                self.add_capture_pawn_move(position, from_square, to_square, captured_piece.index(), Ghost(captures_only));
                let rest = without_lowest(valid_captures);
                proof {
                    lemma_keeps_prefix_trans(base, before, self.moves@);
                    lemma_keeps_prefix_trans(pawn_before, before, self.moves@);
                    assert forall|m: Move| #[trigger] listed(self.moves@, m) == (listed(before, m) || emits(lsb(valid_captures), m)) by {
                        assert(emits(lsb(valid_captures), m) == pawn_step(pos, from_square as int, to_square as int, captured_piece.idx(), m));
                    }
                    lemma_swept_step(pawn_before, before, self.moves@, valid0, valid_captures, rest, emits);
                }
                valid_captures = rest;
            }
            let ghost pawn_after = self.moves@;
            let rest = without_lowest(pawns);
            proof {
                lemma_swept_end(pawn_before, pawn_after, valid0, emits);
                assert forall|m: Move| #[trigger] listed(pawn_after, m) == (listed(pawn_before, m) || emits_capture(lsb(pawns), m)) by {
                    if pawn_captures_from(pos, from_square as int, m) {
                        let to = choose|to: int| 0 <= to < 64 && pawn_capture(pos.side == Color::WHITE, from_square as int, to)
                            && ps[to] != Piece::NONE && ps[to].pcolor() == side.flip() && #[trigger] pawn_step(pos, from_square as int, to, ps[to].idx(), m);
                        assert(bit(valid0, to) && emits(to, m));
                    }
                    if exists|t: int| 0 <= t < 64 && bit(valid0, t) && #[trigger] emits(t, m) {
                        let t = choose|t: int| 0 <= t < 64 && bit(valid0, t) && #[trigger] emits(t, m);
                        assert(pawn_step(pos, from_square as int, t, ps[t].idx(), m));
                    }
                }
                lemma_swept_step(quiet_done, pawn_before, pawn_after, our_pawns, pawns, rest, emits_capture);
                if ord {
                    lemma_new_entries(pawn_before, pawn_after, |m: Move| emits_capture(lsb(pawns), m));
                    assert forall|i: int| pawn_before.len() <= i < pawn_after.len() implies
                        gen_key(pos, #[trigger] pawn_after[i].mv) == 2 * 64 + lsb(pawns) + 0 by {
                        lemma_capture_pawn_fields(pos, from_square as int, pawn_after[i].mv);
                    }
                    lemma_order_step(pos, pawn_before, pawn_after, 2, pawns, rest, 0);
                }
            }
            pawns = rest;
        }
        let ghost captures_done = self.moves@;
        proof {
            if ord {
                lemma_order_end(pos, captures_done, 2, 0);
            }
            lemma_swept_end(quiet_done, captures_done, our_pawns, emits_capture);
            assert forall|m: Move| #[trigger] listed(captures_done, m) implies !m.en_passant_flag() || non_pawn_origin(pos, m) by {
                if !listed(quiet_done, m) {
                    let t = choose|t: int| 0 <= t < 64 && bit(our_pawns, t) && #[trigger] emits_capture(t, m);
                    lemma_capture_pawn_fields(pos, t, m);
                }
            }
            assert forall|mv: Move| #[trigger] listed(captures_done, mv) == (listed(quiet_done, mv) || pawn_capture_moves(pos, mv)) by {
                if pawn_capture_moves(pos, mv) {
                    let from = choose|from: int| 0 <= from < 64 && ps[from] == Piece::of(PieceType::PAWN, side) && #[trigger] pawn_captures_from(pos, from, mv);
                    assert(bit(our_pawns, from) && emits_capture(from, mv));
                }
                if exists|t: int| 0 <= t < 64 && bit(our_pawns, t) && #[trigger] emits_capture(t, mv) {
                    let t = choose|t: int| 0 <= t < 64 && bit(our_pawns, t) && #[trigger] emits_capture(t, mv);
                    assert(pawn_captures_from(pos, t, mv));
                }
            }
        }

        let mut ep_happened = false;
        let ghost mut ep0: u64 = 0;
        let ghost mut ep_square: int = 0;
        if let Some(en_passant_square) = position.en_passant {
            let ep = en_passant_square as usize;
            let victim_ok = if white {
                ep >= 8 && position.pieces[ep - 8] == Piece::BLACK_PAWN
            } else {
                ep + 8 < 64 && position.pieces[ep + 8] == Piece::WHITE_PAWN
            };
            if victim_ok && position.pieces[ep] == Piece::NONE {
                ep_happened = true;
                let potential_attackers = pawn_attacks(!white, ep);
                let mut en_passant_attackers = potential_attackers & our_pawns;
                let ghost emits_ep = |from: int, m: Move| ep_step(from, ep as int, m);
                proof {
                    ep0 = en_passant_attackers;
                    ep_square = ep as int;
                    assert forall|t: int| 0 <= t < 64 implies #[trigger] bit(en_passant_attackers, t) == (ps[t]
                        == Piece::of(PieceType::PAWN, side) && pawn_capture(!white, ep as int, t)) by {
                        lemma_bit_and(potential_attackers, our_pawns, t as u64);
                    }
                    lemma_swept_start(captures_done, ep0, emits_ep);
                    if ord {
                        lemma_order_start(pos, captures_done, 3, ep0, 0);
                    }
                }
                while en_passant_attackers != 0
                    invariant
                        self.wf(),
                        ready(position),
                        pos == *position,
                        ps == position.pieces@,
                        side == position.side,
                        white == (side == Color::WHITE),
                        ep < 64,
                        ps[ep as int] == Piece::NONE,
                        0 <= crate::makemove::ep_victim(ep as int, side) < 64,
                        ps[crate::makemove::ep_victim(ep as int, side)] == Piece::of(PieceType::PAWN, side.flip()),
                        all_generated(pos, self.moves@, captures_only),
                        forall|t: int| 0 <= t < 64 && #[trigger] bit(en_passant_attackers, t) ==> bit(ep0, t),
                        forall|t: int| 0 <= t < 64 ==> #[trigger] bit(ep0, t) == (ps[t]
                            == Piece::of(PieceType::PAWN, side) && pawn_capture(!white, ep as int, t)),
                        swept(captures_done, self.moves@, ep0, en_passant_attackers, emits_ep),
                        forall|t: int, m: Move| #[trigger] emits_ep(t, m) == ep_step(t, ep as int, m),
                        distinct_moves(self.moves@),
                        forall|m: Move| #[trigger] listed(captures_done, m) ==> !m.en_passant_flag() || non_pawn_origin(pos, m),
                        keeps_prefix(base, self.moves@),
                        ord ==> order_ready(pos, self.moves@, 3, en_passant_attackers, 0),
                    decreases en_passant_attackers,
                {
                    let from_square = lowest_square(en_passant_attackers);
                    let ghost before = self.moves@;
                    let ghost mv = Move(crate::movegen::encode_move(from_square as u32, ep as u32, 0, 1, 0));
                    proof {
                        assert(bit(ep0, from_square as int));
                        assert(Piece::of(PieceType::PAWN, side).ptype() == PieceType::PAWN);
                        crate::movegen::lemma_move_fields(from_square as u32, ep as u32, 0, 1, 0);
                        assert forall|t: int| 0 <= t < 64 && t != from_square && bit(ep0, t) implies !#[trigger] emits_ep(t, mv) by {
                            crate::movegen::lemma_move_fields(t as u32, ep as u32, 0, 1, 0);
                        }
                        lemma_swept_fresh(captures_done, self.moves@, ep0, en_passant_attackers, emits_ep, from_square as int, mv);
                    }
                    self.add_enpassant_move(position, from_square, ep);
                    let rest = without_lowest(en_passant_attackers);
                    proof {
                        lemma_distinct_push(before, self.moves@.last());
                        lemma_keeps_prefix_push(before, self.moves@.last());
                        lemma_keeps_prefix_trans(base, before, self.moves@);
                        crate::movegen::lemma_move_fields(from_square as u32, ep as u32, 0, 1, 0);
                        assert(generated(pos, self.moves@.last(), captures_only));
                        assert forall|i: int| 0 <= i < self.moves@.len() implies #[trigger] generated(pos, self.moves@[i], captures_only) by {
                            if i < before.len() {
                                assert(self.moves@[i] == before[i]);
                            }
                        }
                        lemma_listed_push(before, self.moves@.last());
                        assert forall|m: Move| #[trigger] listed(self.moves@, m) == (listed(before, m) || emits_ep(lsb(en_passant_attackers), m)) by {
                        }
                        lemma_swept_step(captures_done, before, self.moves@, ep0, en_passant_attackers, rest, emits_ep);
                        if ord {
                            assert forall|i: int| before.len() <= i < self.moves@.len() implies
                                gen_key(pos, #[trigger] self.moves@[i].mv) == 3 * 64 + lsb(en_passant_attackers) + 0 by {
                                assert(self.moves@[i].mv == mv);
                            }
                            lemma_order_step(pos, before, self.moves@, 3, en_passant_attackers, rest, 0);
                        }
                    }
                    en_passant_attackers = rest;
                }
                proof {
                    if ord {
                        lemma_order_end(pos, self.moves@, 3, 0);
                    }
                    lemma_swept_end(captures_done, self.moves@, ep0, emits_ep);
                    assert forall|mv: Move| #[trigger] listed(self.moves@, mv) == (listed(captures_done, mv) || ep_moves(pos, mv)) by {
                        if ep_moves(pos, mv) {
                            let from = choose|from: int| 0 <= from < 64 && ps[from] == Piece::of(PieceType::PAWN, side)
                                && pawn_capture(side != Color::WHITE, ep as int, from) && #[trigger] ep_step(from, ep as int, mv);
                            assert(bit(ep0, from) && emits_ep(from, mv));
                        }
                        if exists|t: int| 0 <= t < 64 && bit(ep0, t) && #[trigger] emits_ep(t, mv) {
                            let t = choose|t: int| 0 <= t < 64 && bit(ep0, t) && #[trigger] emits_ep(t, mv);
                            assert(ep_step(t, ep as int, mv));
                        }
                    }
                }
            } else {
                proof {
                    assert forall|mv: Move| #[trigger] listed(self.moves@, mv) == (listed(captures_done, mv) || ep_moves(pos, mv)) by {
                        assert(!ep_open(pos, ep as int));
                    }
                }
            }
        } else {
            proof {
                assert forall|mv: Move| #[trigger] listed(self.moves@, mv) == (listed(captures_done, mv) || ep_moves(pos, mv)) by {
                }
            }
        }
        proof {
            assert forall|mv: Move| #[trigger] listed(self.moves@, mv) == (listed(base, mv)
                || pawn_moves(pos, captures_only, mv)) by {
                assert(listed(self.moves@, mv) == (listed(captures_done, mv) || ep_moves(pos, mv)));
                assert(listed(captures_done, mv) == (listed(quiet_done, mv) || pawn_capture_moves(pos, mv)));
                assert(listed(quiet_done, mv) == (listed(base, mv)
                    || (!captures_only && push_moves(pos, mv)) || (!captures_only && double_moves(pos, mv))));
            }
        }
    }

    /// All pseudo-legal moves of the side to move, each with its ordering score. Moves
    /// that leave the king attacked are among them; `make_move` refuses those.
    pub fn generate_all_moves(&mut self, position: &Board)
        requires
            ready(position),
        ensures
            final(self).wf(),
            all_generated(*position, final(self).moves@, false),
            forall|mv: Move| #[trigger] listed(final(self).moves@, mv) == pseudo_legal(*position, false, mv),
            distinct_moves(final(self).moves@),
            in_generation_order(*position, final(self).moves@),
    {
        let ghost pos = *position;
        self.clear();
        proof {
            assert forall|mv: Move| !#[trigger] listed(self.moves@, mv) by {}
        }
        self.generate_pawn_moves(position, false);
        proof {
            assert forall|m: Move| #[trigger] listed(self.moves@, m) implies m.from_sq() < 64
                && pos.pieces@[m.from_sq() as int].ptype() == PieceType::PAWN && !m.castle_flag() by {
                lemma_pawn_moves_origin(pos, false, m);
            }
        }
        let ghost after_pawns = self.moves@;
        self.generate_knight_moves(position, false);
        proof {
            assert forall|m: Move| #[trigger] listed(self.moves@, m) implies m.from_sq() < 64 && !m.castle_flag() && {
                let t = pos.pieces@[m.from_sq() as int].ptype();
                t == PieceType::PAWN || t == PieceType::KNIGHT
            } by {
                if !listed(after_pawns, m) {
                    lemma_own_moves_from(pos, PieceType::KNIGHT, false, m);
                }
            }
        }
        let ghost after_knights = self.moves@;
        self.generate_sliding_moves(position, false);
        proof {
            assert forall|m: Move| #[trigger] listed(self.moves@, m) implies m.from_sq() < 64 && !m.castle_flag()
                && pos.pieces@[m.from_sq() as int].ptype() != PieceType::KING by {
                if !listed(after_knights, m) {
                    if own_moves(pos, PieceType::BISHOP, false, m) {
                        lemma_own_moves_from(pos, PieceType::BISHOP, false, m);
                    } else if own_moves(pos, PieceType::ROOK, false, m) {
                        lemma_own_moves_from(pos, PieceType::ROOK, false, m);
                    } else {
                        lemma_own_moves_from(pos, PieceType::QUEEN, false, m);
                    }
                }
            }
        }
        let ghost after_sliders = self.moves@;
        self.generate_king_moves(position, false);
        proof {
            assert forall|m: Move| #[trigger] listed(self.moves@, m) implies !m.castle_flag() by {
                if !listed(after_sliders, m) {
                    lemma_own_moves_from(pos, PieceType::KING, false, m);
                }
            }
        }
        self.generate_castle_moves(position);
    }

    /// The captures (en passant included) of the side to move, each with its score.
    pub fn generate_all_captures(&mut self, position: &Board)
        requires
            ready(position),
        ensures
            final(self).wf(),
            all_generated(*position, final(self).moves@, true),
            forall|mv: Move| #[trigger] listed(final(self).moves@, mv) == pseudo_legal(*position, true, mv),
            distinct_moves(final(self).moves@),
            in_generation_order(*position, final(self).moves@),
    {
        let ghost pos = *position;
        self.clear();
        proof {
            assert forall|mv: Move| !#[trigger] listed(self.moves@, mv) by {}
        }
        self.generate_pawn_moves(position, true);
        proof {
            assert forall|m: Move| #[trigger] listed(self.moves@, m) implies m.from_sq() < 64
                && pos.pieces@[m.from_sq() as int].ptype() == PieceType::PAWN by {
                lemma_pawn_moves_origin(pos, true, m);
            }
        }
        let ghost after_pawns = self.moves@;
        self.generate_knight_moves(position, true);
        proof {
            assert forall|m: Move| #[trigger] listed(self.moves@, m) implies m.from_sq() < 64 && {
                let t = pos.pieces@[m.from_sq() as int].ptype();
                t == PieceType::PAWN || t == PieceType::KNIGHT
            } by {
                if !listed(after_pawns, m) {
                    lemma_own_moves_from(pos, PieceType::KNIGHT, true, m);
                }
            }
        }
        let ghost after_knights = self.moves@;
        self.generate_sliding_moves(position, true);
        proof {
            assert forall|m: Move| #[trigger] listed(self.moves@, m) implies m.from_sq() < 64
                && pos.pieces@[m.from_sq() as int].ptype() != PieceType::KING by {
                if !listed(after_knights, m) {
                    if own_moves(pos, PieceType::BISHOP, true, m) {
                        lemma_own_moves_from(pos, PieceType::BISHOP, true, m);
                    } else if own_moves(pos, PieceType::ROOK, true, m) {
                        lemma_own_moves_from(pos, PieceType::ROOK, true, m);
                    } else {
                        lemma_own_moves_from(pos, PieceType::QUEEN, true, m);
                    }
                }
            }
        }
        self.generate_king_moves(position, true);
    }
}

/// The pseudo-legal moves of the side to move (only the captures, en passant included,
/// when `captures_only`): pawn moves, the moves of knights, bishops, rooks, queens and
/// the king to squares their own pieces do not hold, and castling.
pub open spec fn pseudo_legal(pos: Board, captures_only: bool, mv: Move) -> bool {
    ||| pawn_moves(pos, captures_only, mv)
    ||| own_moves(pos, PieceType::KNIGHT, captures_only, mv)
    ||| own_moves(pos, PieceType::BISHOP, captures_only, mv)
    ||| own_moves(pos, PieceType::ROOK, captures_only, mv)
    ||| own_moves(pos, PieceType::QUEEN, captures_only, mv)
    ||| own_moves(pos, PieceType::KING, captures_only, mv)
    ||| !captures_only && castle_moves(pos, mv)
}

/// Every capture the generator makes is among all the moves it makes.
pub proof fn lemma_captures_among_moves(pos: Board, mv: Move)
    requires
        pseudo_legal(pos, true, mv),
    ensures
        pseudo_legal(pos, false, mv),
{
    if own_moves(pos, PieceType::KNIGHT, true, mv) {
        lemma_own_captures_among_moves(pos, PieceType::KNIGHT, mv);
    }
    if own_moves(pos, PieceType::BISHOP, true, mv) {
        lemma_own_captures_among_moves(pos, PieceType::BISHOP, mv);
    }
    if own_moves(pos, PieceType::ROOK, true, mv) {
        lemma_own_captures_among_moves(pos, PieceType::ROOK, mv);
    }
    if own_moves(pos, PieceType::QUEEN, true, mv) {
        lemma_own_captures_among_moves(pos, PieceType::QUEEN, mv);
    }
    if own_moves(pos, PieceType::KING, true, mv) {
        lemma_own_captures_among_moves(pos, PieceType::KING, mv);
    }
}

proof fn lemma_own_captures_among_moves(pos: Board, pt: PieceType, mv: Move)
    requires
        own_moves(pos, pt, true, mv),
    ensures
        own_moves(pos, pt, false, mv),
{
    let s = choose|s: int| 0 <= s < 64 && pos.pieces@[s] == Piece::of(pt, pos.side) && #[trigger] piece_moves(pos, pt, s, true, mv);
    let to = choose|to: int| 0 <= to < 64 && piece_reaches(pos, pt, s, to) && #[trigger] target_move(pos, s, to, true, mv);
    assert(target_move(pos, s, to, false, mv));
    assert(piece_moves(pos, pt, s, false, mv));
}

/// The move a non-castling pseudo-legal move from `f` to `t` promoting to `p` must be:
/// a pawn's double push, its en passant capture, or else the move that takes whatever
/// stands on `t`.
pub open spec fn plain_move(pos: Board, f: int, t: int, p: nat) -> Move {
    if pos.pieces@[f].ptype() == PieceType::PAWN {
        if t - f == 16 || f - t == 16 {
            Move(encode_move(f as u32, t as u32, 0, 2, 0))
        } else if t % 8 != f % 8 && pos.pieces@[t] == Piece::NONE {
            Move(encode_move(f as u32, t as u32, 0, 1, 0))
        } else {
            Move(encode_move(f as u32, t as u32, pos.pieces@[t].idx() as u32, 0, p as u32))
        }
    } else {
        Move(encode_move(f as u32, t as u32, pos.pieces@[t].idx() as u32, 0, 0))
    }
}

proof fn lemma_target_move_plain(pos: Board, pt: PieceType, s: int, to: int, mv: Move)
    requires
        pos.side.is_side(),
        0 <= s < 64,
        0 <= to < 64,
        pt != PieceType::PAWN,
        pos.pieces@[s] == Piece::of(pt, pos.side),
        target_move(pos, s, to, false, mv),
    ensures
        mv.from_sq() == s,
        mv.to_sq() == to,
        mv.promoted_idx() == 0,
        !mv.castle_flag(),
        mv == plain_move(pos, s, to, 0),
{
    let p = pos.pieces@[to];
    lemma_move_fields(s as u32, to as u32, p.idx() as u32, 0, 0);
    lemma_move_fields(s as u32, to as u32, 0, 0, 0);
}

proof fn lemma_pawn_step_plain(pos: Board, f: int, to: int, cap: nat, mv: Move)
    requires
        pos.side.is_side(),
        0 <= f < 64,
        0 <= to < 64,
        cap < 32,
        pawn_step(pos, f, to, cap, mv),
    ensures
        mv.from_sq() == f,
        mv.to_sq() == to,
        mv.captured_idx() == cap,
        !mv.castle_flag(),
        !mv.en_passant_flag(),
        !mv.double_push_flag(),
        mv == Move(encode_move(f as u32, to as u32, cap as u32, 0, mv.promoted_idx() as u32)),
{
    let side = pos.side;
    let q = Piece::of(PieceType::QUEEN, side).idx();
    let r = Piece::of(PieceType::ROOK, side).idx();
    let b = Piece::of(PieceType::BISHOP, side).idx();
    let n = Piece::of(PieceType::KNIGHT, side).idx();
    lemma_move_fields(f as u32, to as u32, cap as u32, 0, q as u32);
    lemma_move_fields(f as u32, to as u32, cap as u32, 0, r as u32);
    lemma_move_fields(f as u32, to as u32, cap as u32, 0, b as u32);
    lemma_move_fields(f as u32, to as u32, cap as u32, 0, n as u32);
    lemma_move_fields(f as u32, to as u32, cap as u32, 0, 0);
}

/// A pseudo-legal move that is not a castle is the plain move of its squares and
/// promotion; a king's goes to a square next to it, and the mover is a pawn, knight,
/// bishop, rook, queen or king.
pub proof fn lemma_pseudo_legal_plain(pos: Board, mv: Move)
    requires
        ready(&pos),
        pseudo_legal(pos, false, mv),
    ensures
        mv.castle_flag() ==> castle_moves(pos, mv),
        !mv.castle_flag() ==> {
            &&& mv == plain_move(pos, mv.from_sq() as int, mv.to_sq() as int, mv.promoted_idx())
            &&& pos.pieces@[mv.from_sq() as int].ptype() == PieceType::KING ==> king_move(mv.from_sq() as int, mv.to_sq() as int)
            &&& pos.pieces@[mv.from_sq() as int].ptype() != PieceType::NONE
            &&& pos.pieces@[mv.from_sq() as int].ptype() != PieceType::DRAGON
            &&& pos.pieces@[mv.from_sq() as int].ptype() != PieceType::PAWN ==> mv.promoted_idx() == 0
        },
{
    let side = pos.side;
    if push_moves(pos, mv) {
        let to = choose|to: int| push_target(pos, to) && #[trigger] pawn_step(pos, push_origin(pos.side, to, 1), to, 0, mv);
        let f = push_origin(side, to, 1);
        lemma_pawn_step_plain(pos, f, to, 0, mv);
    } else if double_moves(pos, mv) {
        let to = choose|to: int| double_target(pos, to) && #[trigger] double_move(pos, to, mv);
        let f = push_origin(side, to, 2);
        lemma_move_fields(f as u32, to as u32, 0, 2, 0);
    } else if pawn_capture_moves(pos, mv) {
        let f = choose|from: int| 0 <= from < 64 && pos.pieces@[from] == Piece::of(PieceType::PAWN, pos.side) && #[trigger] pawn_captures_from(pos, from, mv);
        let to = choose|to: int|
            0 <= to < 64 && pawn_capture(pos.side == Color::WHITE, f, to) && pos.pieces@[to] != Piece::NONE
                && pos.pieces@[to].pcolor() == pos.side.flip() && #[trigger] pawn_step(pos, f, to, pos.pieces@[to].idx(), mv);
        lemma_pawn_step_plain(pos, f, to, pos.pieces@[to].idx(), mv);
    } else if ep_moves(pos, mv) {
        let e = pos.en_passant->0 as int;
        let f = choose|from: int|
            0 <= from < 64 && pos.pieces@[from] == Piece::of(PieceType::PAWN, pos.side) && pawn_capture(pos.side != Color::WHITE, e, from)
                && #[trigger] ep_step(from, e, mv);
        lemma_move_fields(f as u32, e as u32, 0, 1, 0);
    } else if castle_moves(pos, mv) {
        lemma_move_fields(4, 6, 0, 4, 0);
        lemma_move_fields(4, 2, 0, 4, 0);
        lemma_move_fields(60, 62, 0, 4, 0);
        lemma_move_fields(60, 58, 0, 4, 0);
    } else {
        let pt = if own_moves(pos, PieceType::KNIGHT, false, mv) {
            PieceType::KNIGHT
        } else if own_moves(pos, PieceType::BISHOP, false, mv) {
            PieceType::BISHOP
        } else if own_moves(pos, PieceType::ROOK, false, mv) {
            PieceType::ROOK
        } else if own_moves(pos, PieceType::QUEEN, false, mv) {
            PieceType::QUEEN
        } else {
            PieceType::KING
        };
        assert(own_moves(pos, pt, false, mv));
        let s = choose|s: int| 0 <= s < 64 && pos.pieces@[s] == Piece::of(pt, pos.side) && #[trigger] piece_moves(pos, pt, s, false, mv);
        let to = choose|to: int| 0 <= to < 64 && piece_reaches(pos, pt, s, to) && #[trigger] target_move(pos, s, to, false, mv);
        lemma_target_move_plain(pos, pt, s, to, mv);
    }
}

/// Which moves are pseudo-legal depends on the position alone: the pieces, the side to
/// move, the en passant square and the castling rights.
pub proof fn lemma_pseudo_legal_same_position(a: Board, b: Board, captures_only: bool, mv: Move)
    requires
        a.pieces@ == b.pieces@,
        a.side == b.side,
        a.en_passant == b.en_passant,
        a.castle_permission == b.castle_permission,
    ensures
        pseudo_legal(a, captures_only, mv) == pseudo_legal(b, captures_only, mv),
{
    assert forall|f: int, t: int, c: nat| #[trigger] pawn_step(a, f, t, c, mv) == pawn_step(b, f, t, c, mv) by {}
    assert forall|t: int| #[trigger] push_target(a, t) == push_target(b, t) by {}
    assert forall|f: int| #[trigger] pawn_captures_from(a, f, mv) == pawn_captures_from(b, f, mv) by {
        if pawn_captures_from(a, f, mv) {
            let to = choose|to: int|
                0 <= to < 64 && pawn_capture(a.side == Color::WHITE, f, to) && a.pieces@[to] != Piece::NONE
                    && a.pieces@[to].pcolor() == a.side.flip() && #[trigger] pawn_step(a, f, to, a.pieces@[to].idx(), mv);
            assert(pawn_step(b, f, to, b.pieces@[to].idx(), mv));
        }
        if pawn_captures_from(b, f, mv) {
            let to = choose|to: int|
                0 <= to < 64 && pawn_capture(b.side == Color::WHITE, f, to) && b.pieces@[to] != Piece::NONE
                    && b.pieces@[to].pcolor() == b.side.flip() && #[trigger] pawn_step(b, f, to, b.pieces@[to].idx(), mv);
            assert(pawn_step(a, f, to, a.pieces@[to].idx(), mv));
        }
    }
    assert forall|pt: PieceType, f: int| #[trigger] piece_moves(a, pt, f, captures_only, mv) == piece_moves(b, pt, f, captures_only, mv) by {
        if piece_moves(a, pt, f, captures_only, mv) {
            let to = choose|to: int| 0 <= to < 64 && piece_reaches(a, pt, f, to) && #[trigger] target_move(a, f, to, captures_only, mv);
            assert(target_move(b, f, to, captures_only, mv));
        }
        if piece_moves(b, pt, f, captures_only, mv) {
            let to = choose|to: int| 0 <= to < 64 && piece_reaches(b, pt, f, to) && #[trigger] target_move(b, f, to, captures_only, mv);
            assert(target_move(a, f, to, captures_only, mv));
        }
    }
    if push_moves(a, mv) {
        let to = choose|to: int| push_target(a, to) && #[trigger] pawn_step(a, push_origin(a.side, to, 1), to, 0, mv);
        assert(pawn_step(b, push_origin(b.side, to, 1), to, 0, mv));
    }
    if push_moves(b, mv) {
        let to = choose|to: int| push_target(b, to) && #[trigger] pawn_step(b, push_origin(b.side, to, 1), to, 0, mv);
        assert(pawn_step(a, push_origin(a.side, to, 1), to, 0, mv));
    }
    if double_moves(a, mv) {
        let to = choose|to: int| double_target(a, to) && #[trigger] double_move(a, to, mv);
        assert(double_move(b, to, mv));
    }
    if double_moves(b, mv) {
        let to = choose|to: int| double_target(b, to) && #[trigger] double_move(b, to, mv);
        assert(double_move(a, to, mv));
    }
    if pawn_capture_moves(a, mv) {
        let f = choose|from: int| 0 <= from < 64 && a.pieces@[from] == Piece::of(PieceType::PAWN, a.side) && #[trigger] pawn_captures_from(a, from, mv);
        assert(pawn_captures_from(b, f, mv));
    }
    if pawn_capture_moves(b, mv) {
        let f = choose|from: int| 0 <= from < 64 && b.pieces@[from] == Piece::of(PieceType::PAWN, b.side) && #[trigger] pawn_captures_from(b, from, mv);
        assert(pawn_captures_from(a, f, mv));
    }
    assert forall|pt: PieceType| #[trigger] own_moves(a, pt, captures_only, mv) == own_moves(b, pt, captures_only, mv) by {
        if own_moves(a, pt, captures_only, mv) {
            let s = choose|s: int| 0 <= s < 64 && a.pieces@[s] == Piece::of(pt, a.side) && #[trigger] piece_moves(a, pt, s, captures_only, mv);
            assert(piece_moves(b, pt, s, captures_only, mv));
        }
        if own_moves(b, pt, captures_only, mv) {
            let s = choose|s: int| 0 <= s < 64 && b.pieces@[s] == Piece::of(pt, b.side) && #[trigger] piece_moves(b, pt, s, captures_only, mv);
            assert(piece_moves(a, pt, s, captures_only, mv));
        }
    }
    assert(ep_moves(a, mv) == ep_moves(b, mv));
    assert(castle_moves(a, mv) == castle_moves(b, mv));
}

/// Two pseudo-legal moves with the same squares and promotion, one of them not a
/// castle, are the same move.
pub proof fn lemma_pseudo_legal_unique(pos: Board, a: Move, b: Move)
    requires
        ready(&pos),
        pseudo_legal(pos, false, a),
        pseudo_legal(pos, false, b),
        !a.castle_flag(),
        a.from_sq() == b.from_sq(),
        a.to_sq() == b.to_sq(),
        a.promoted_idx() == b.promoted_idx(),
    ensures
        a == b,
{
    lemma_pseudo_legal_plain(pos, a);
    if b.castle_flag() {
        lemma_move_fields(4, 6, 0, 4, 0);
        lemma_move_fields(4, 2, 0, 4, 0);
        lemma_move_fields(60, 62, 0, 4, 0);
        lemma_move_fields(60, 58, 0, 4, 0);
        lemma_pseudo_legal_plain(pos, b);
        assert(!king_move(a.from_sq() as int, a.to_sq() as int));
    } else {
        lemma_pseudo_legal_plain(pos, b);
    }
}

} // verus!
