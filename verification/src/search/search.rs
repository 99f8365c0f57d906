//! Alpha-beta search with a transposition table, killer moves and the history
//! heuristic, quiescence search of captures, and iterative deepening.
use vstd::prelude::*;
use crate::board::{Board, MAX_DEPTH, MAX_GAME_MOVES};
use crate::defs::{Color, Piece, PieceType};
use crate::makemove::{move_fits, side_has_king, legal_move, piece_count, lemma_capture_removes_one, lemma_occupied_bound, lemma_bb_ok_frame, lemma_same_pieces_same_boards};
use crate::movegen::{Move, MoveList, ScoredMove};
use crate::movegen::attacks::{square_attacked, attacked, in_check};
use crate::movegen::generate::{ready, generated, listed, pseudo_legal, move_score, distinct_moves};
use crate::search::{Search, IterationReport, clock_elapsed_ms};
use crate::search::evaluate::{PIECE_VALUE, evaluation};
use crate::transposition_table::{TranspositionData, TranspositionTable, slot_of, replaces, lemma_probe_after_store, data_move, data_score, data_flag, data_depth, data_age, ALPHA_FLAG, BETA_FLAG, EXACT_FLAG};

verus! {

pub const MATE_SCORE: i32 = 30000;
pub const MATE_THRESHOLD: i32 = 29000;

/// Scores stay within this bound in magnitude (static evaluations are far inside it).
pub const SCORE_LIMIT: i32 = 30000000;

/// Room left in the game record and counters for `n` more moves.
pub open spec fn room(b: &Board, n: int) -> bool {
    &&& b.history_ply + n <= MAX_GAME_MOVES
    &&& b.ply + n < 255
    &&& b.fifty_move + n < 255
}

impl Board {
    /// The same position and game record as `before` up to its last move, the killer
    /// and history tables aside (a search updates those).
    pub open spec fn same_search(&self, before: &Board) -> bool {
        &&& self.pieces@ == before.pieces@
        &&& self.bitboards == before.bitboards
        &&& self.occupancies == before.occupancies
        &&& self.side == before.side
        &&& self.en_passant == before.en_passant
        &&& self.castle_permission == before.castle_permission
        &&& self.fifty_move == before.fifty_move
        &&& self.history_ply == before.history_ply
        &&& self.ply == before.ply
        &&& self.position_key == before.position_key
        &&& forall|c: int| 0 <= c < 2 && self.has_king(c) ==> self.king_square[c] == before.king_square[c]
        &&& self.history@.len() == before.history@.len()
        &&& forall|i: int| 0 <= i < before.history_ply ==> self.history@[i] == before.history@[i]
        &&& self.keys == before.keys
        &&& self.past == before.past
    }
}

pub proof fn lemma_same_search_trans(a: &Board, b: &Board, c: &Board)
    requires
        a.same_search(b),
        b.same_search(c),
    ensures
        a.same_search(c),
{
    assert forall|k: int| 0 <= k < 2 && a.has_king(k) implies a.king_square[k] == c.king_square[k] by {
        let s = choose|s: int| 0 <= s < 64 && #[trigger] crate::board::king_of(a.pieces[s], k);
        assert(crate::board::king_of(b.pieces[s], k));
        assert(b.has_king(k));
    }
}

/// Playing a move, searching below it, and taking it back gives the position and game
/// from before the move.
pub proof fn lemma_search_take_back(before: &Board, mid: &Board, later: &Board, after: &Board, mv: Move)
    requires
        before.wf(),
        mid.wf(),
        later.wf(),
        after.wf(),
        mid.played(before, mv),
        later.same_search(mid),
        after.took_back(later),
    ensures
        after.same_search(before),
{
    lemma_same_pieces_same_boards(after, before);
    assert(after.past@ =~= before.past@);
    assert forall|c: int| 0 <= c < 2 && after.has_king(c) implies after.king_square[c] == before.king_square[c] by {
        let s = choose|s: int| 0 <= s < 64 && #[trigger] crate::board::king_of(after.pieces[s], c);
        assert(crate::board::king_of(before.pieces[s], c));
    }
}

/// With its king on the board, the side to move is in check exactly when the square
/// `king_square` records is attacked.
pub proof fn lemma_king_square_check(b: &Board)
    requires
        b.king_ok(),
        b.side.is_side(),
        side_has_king(b.pieces@, b.side),
    ensures
        attacked(b.pieces@, b.king_square[b.side.idx() as int] as int, b.side) == in_check(b.pieces@, b.side),
{
    let c = b.side.idx() as int;
    let s = choose|s: int| 0 <= s < 64 && #[trigger] crate::board::king_of(b.pieces@[s], c);
    assert(b.king_square[c] == s);
    assert(b.pieces@[s] == Piece::of(PieceType::KING, b.side));
    if in_check(b.pieces@, b.side) {
        let t = choose|t: int| 0 <= t < 64 && #[trigger] b.pieces@[t] == Piece::of(PieceType::KING, b.side) && attacked(b.pieces@, t, b.side);
        assert(crate::board::king_of(b.pieces@[t], c));
    }
}

/// Whether the side to move has its king on the board.
fn side_king_present(b: &Board) -> (r: bool)
    requires
        b.bb_ok(),
        b.side.is_side(),
    ensures
        r == side_has_king(b.pieces@, b.side),
{
    let king = b.bitboards[PieceType::KING.bb_index(b.side)];
    proof {
        reveal(Board::bb_ok);
        if king != 0 {
            crate::bits::lemma_lsb(king);
            let s = crate::bits::lsb(king);
            crate::defs::lemma_piece_index_roundtrip(b.pieces@[s]);
            assert(crate::board::king_of(b.pieces@[s], b.side.idx() as int));
        } else {
            crate::bits::lemma_zero_iff_no_bits(king);
            if side_has_king(b.pieces@, b.side) {
                let s = choose|s: int| 0 <= s < 64 && #[trigger] crate::board::king_of(b.pieces@[s], b.side.idx() as int);
                assert(crate::bits::bit(king, s));
            }
        }
    }
    king != 0
}

/// The exchange value depends on the pieces, bitboards, occupancy and side alone.
proof fn lemma_recapture_same(a: Board, c: Board, sq: int, side: Color, occ: u64, v: int)
    requires
        a.pieces@ == c.pieces@,
        a.bitboards == c.bitboards,
    ensures
        crate::search::evaluate::recapture_gain(a, sq, side, occ, v) == crate::search::evaluate::recapture_gain(c, sq, side, occ, v),
    decreases occ,
{
    assert(crate::movegen::attacks::least_attacker(a, sq, side, occ) == crate::movegen::attacks::least_attacker(c, sq, side, occ));
    match crate::movegen::attacks::least_attacker(a, sq, side, occ) {
        Some((pt, bb)) => {
            if bb != 0 && bb & !occ == 0 {
                crate::bits::lemma_clear_decreases(occ, bb);
                lemma_recapture_same(a, c, sq, side.flip(), occ & !bb, crate::search::evaluate::piece_value(pt));
            }
        },
        None => {},
    }
}

/// Whether quiescence passes over the capture `mv` when its best score so far is
/// `best` and the position's standing score is `eval`: the exchange it starts loses
/// material; or, not promoting, even the captured piece's value and a margin of 200
/// leave the standing score below `best`; or it is not legal.
pub open spec fn q_skips(b: Board, mv: Move, eval: int, best: int) -> bool {
    let from = mv.from_sq() as int;
    let victim = Piece::from_idx(mv.captured_idx()).ptype();
    ||| crate::search::evaluate::exchange_value(b, from, mv.to_sq() as int, victim, b.pieces@[from].ptype()) < 0
    ||| (mv.promoted_idx() == 0 && eval + PIECE_VALUE[victim.idx() as int] + 200 < best)
    ||| !legal_move(b.pieces@, b.side, mv)
}

/// Quiescence's state after the first `k` captures of `caps`, the searched ones having
/// scored `vals`: whether one reached `beta` (the state is then `beta`), and the best
/// score so far, starting from `best0`.
pub open spec fn q_run(b: Board, caps: Seq<Move>, vals: Seq<int>, eval: int, beta: int, best0: int, k: nat) -> (bool, int)
    decreases k,
{
    if k == 0 {
        (false, best0)
    } else {
        let prev = q_run(b, caps, vals, eval, beta, best0, (k - 1) as nat);
        if prev.0 || q_skips(b, caps[k - 1], eval, prev.1) {
            prev
        } else if vals[k - 1] >= beta {
            (true, beta)
        } else if vals[k - 1] > prev.1 {
            (false, vals[k - 1])
        } else {
            prev
        }
    }
}

/// Quiescence's first best score: the better of `alpha` and the standing score.
pub open spec fn q_start(alpha: int, eval: int) -> int {
    if alpha >= eval {
        alpha
    } else {
        eval
    }
}

/// `r` is the quiescence score of `b` (which holds `n` pieces) in the window
/// `[alpha, beta]`: 0 for a draw at the first ply; `beta` when the standing score
/// reaches it; otherwise, from the better of `alpha` and the standing score, the
/// captures are tried best-scored first (each pseudo-legal capture once), those not
/// passed over (`q_skips`) scored by the negated quiescence score of the position they
/// lead to in the window `[-beta, -best]`, until one reaches `beta`.
pub open spec fn q_value(b: Board, n: nat, alpha: int, beta: int, r: int) -> bool
    decreases n,
{
    let eval = evaluation(b);
    let best0 = q_start(alpha, eval);
    &&& piece_count(b.pieces@) == n
    &&& if draw_at_first_ply(b) {
        r == 0
    } else if eval >= beta {
        r == beta
    } else if !side_has_king(b.pieces@, b.side) {
        r == best0
    } else {
        exists|caps: Seq<Move>, vals: Seq<int>| #![trigger q_run(b, caps, vals, eval, beta, best0, caps.len() as nat)] {
            &&& caps.len() == vals.len()
            &&& caps.no_duplicates()
            &&& forall|m: Move| #[trigger] caps.contains(m) == pseudo_legal(b, true, m)
            &&& forall|i: int, j: int| 0 <= i < j < caps.len() ==> move_score(b, #[trigger] caps[i]) >= move_score(b, #[trigger] caps[j])
            &&& forall|k: int| 0 <= k < caps.len() ==> {
                let st = #[trigger] q_run(b, caps, vals, eval, beta, best0, k as nat);
                !st.0 && !q_skips(b, caps[k], eval, st.1) ==> n > 0 && exists|c: Board|
                    crate::perft::leads_to(b, caps[k], c) && q_value(c, (n - 1) as nat, -beta, -st.1, -vals[k])
            }
            &&& r == q_run(b, caps, vals, eval, beta, best0, caps.len()).1
        }
    }
}

/// The `k`-th capture of `caps`, unless quiescence passed over it or had already
/// reached `beta`, scored `vals[k]`: the negated quiescence score of the position it
/// leads to, in the window of that moment.
pub open spec fn q_child_ok(b: Board, caps: Seq<Move>, vals: Seq<int>, eval: int, beta: int, best0: int, k: int, n: nat) -> bool {
    let st = q_run(b, caps, vals, eval, beta, best0, k as nat);
    !st.0 && !q_skips(b, caps[k], eval, st.1) ==> n > 0 && exists|c: Board|
        crate::perft::leads_to(b, caps[k], c) && q_value(c, (n - 1) as nat, -beta, -st.1, -vals[k])
}

/// Adding the score of the next capture keeps the earlier steps as they were.
proof fn lemma_q_extend(b: Board, caps: Seq<Move>, vals: Seq<int>, v: int, eval: int, beta: int, best0: int, n: nat)
    requires
        vals.len() < caps.len(),
        forall|j: int| 0 <= j < vals.len() ==> #[trigger] q_child_ok(b, caps, vals, eval, beta, best0, j, n),
        ({
            let st = q_run(b, caps, vals, eval, beta, best0, vals.len() as nat);
            !st.0 && !q_skips(b, caps[vals.len() as int], eval, st.1) ==> n > 0 && exists|c: Board|
                crate::perft::leads_to(b, caps[vals.len() as int], c) && q_value(c, (n - 1) as nat, -beta, -st.1, -v)
        }),
    ensures
        forall|j: int| 0 <= j < vals.len() + 1 ==> #[trigger] q_child_ok(b, caps, vals.push(v), eval, beta, best0, j, n),
        q_run(b, caps, vals.push(v), eval, beta, best0, vals.len() as nat) == q_run(b, caps, vals, eval, beta, best0, vals.len() as nat),
{
    let w = vals.push(v);
    lemma_q_run_prefix(b, caps, vals, w, eval, beta, best0, vals.len() as nat);
    assert forall|j: int| 0 <= j < vals.len() + 1 implies #[trigger] q_child_ok(b, caps, w, eval, beta, best0, j, n) by {
        if j < vals.len() {
            assert(q_child_ok(b, caps, vals, eval, beta, best0, j, n));
            lemma_q_run_prefix(b, caps, vals, w, eval, beta, best0, j as nat);
            assert(w[j] == vals[j]);
        } else {
            assert(w[j] == v);
        }
    }
}

/// A complete run over the captures gives the quiescence score.
proof fn lemma_q_conclude(b: Board, caps: Seq<Move>, vals: Seq<int>, eval: int, beta: int, best0: int, n: nat, alpha: int, r: int)
    requires
        piece_count(b.pieces@) == n,
        eval == evaluation(b),
        !draw_at_first_ply(b),
        eval < beta,
        side_has_king(b.pieces@, b.side),
        best0 == q_start(alpha, eval),
        caps.len() == vals.len(),
        caps.no_duplicates(),
        forall|m: Move| #[trigger] caps.contains(m) == pseudo_legal(b, true, m),
        forall|i: int, j: int| 0 <= i < j < caps.len() ==> move_score(b, #[trigger] caps[i]) >= move_score(b, #[trigger] caps[j]),
        forall|k: int| 0 <= k < caps.len() ==> #[trigger] q_child_ok(b, caps, vals, eval, beta, best0, k, n),
        r == q_run(b, caps, vals, eval, beta, best0, caps.len() as nat).1,
    ensures
        q_value(b, n, alpha, beta, r),
{
    assert forall|k: int| 0 <= k < caps.len() implies {
        let st = #[trigger] q_run(b, caps, vals, eval, beta, best0, k as nat);
        !st.0 && !q_skips(b, caps[k], eval, st.1) ==> n > 0 && exists|c: Board|
            crate::perft::leads_to(b, caps[k], c) && q_value(c, (n - 1) as nat, -beta, -st.1, -vals[k])
    } by {
        assert(q_child_ok(b, caps, vals, eval, beta, best0, k, n));
    }
}

/// Once a capture has reached `beta`, the state stays.
proof fn lemma_q_run_done(b: Board, caps: Seq<Move>, vals: Seq<int>, eval: int, beta: int, best0: int, k: nat, k2: nat)
    requires
        k <= k2,
        q_run(b, caps, vals, eval, beta, best0, k).0,
    ensures
        q_run(b, caps, vals, eval, beta, best0, k2) == q_run(b, caps, vals, eval, beta, best0, k),
    decreases k2,
{
    if k2 > k {
        lemma_q_run_done(b, caps, vals, eval, beta, best0, k, (k2 - 1) as nat);
    }
}

/// The state after `k` captures depends on the first `k` scores alone.
proof fn lemma_q_run_prefix(b: Board, caps: Seq<Move>, vals: Seq<int>, vals2: Seq<int>, eval: int, beta: int, best0: int, k: nat)
    requires
        k <= vals.len(),
        k <= vals2.len(),
        forall|i: int| 0 <= i < k ==> vals[i] == vals2[i],
    ensures
        q_run(b, caps, vals, eval, beta, best0, k) == q_run(b, caps, vals2, eval, beta, best0, k),
    decreases k,
{
    if k > 0 {
        lemma_q_run_prefix(b, caps, vals, vals2, eval, beta, best0, (k - 1) as nat);
    }
}

/// Once a capture has reached `beta`, the best score is `beta`.
proof fn lemma_q_run_done_beta(b: Board, caps: Seq<Move>, vals: Seq<int>, eval: int, beta: int, best0: int, k: nat)
    requires
        q_run(b, caps, vals, eval, beta, best0, k).0,
    ensures
        q_run(b, caps, vals, eval, beta, best0, k).1 == beta,
    decreases k,
{
    if k > 0 {
        let prev = q_run(b, caps, vals, eval, beta, best0, (k - 1) as nat);
        if prev.0 {
            lemma_q_run_done_beta(b, caps, vals, eval, beta, best0, (k - 1) as nat);
        }
    }
}

/// Until a capture reaches `beta`, the best score only grows.
proof fn lemma_q_run_grows(b: Board, caps: Seq<Move>, vals: Seq<int>, eval: int, beta: int, best0: int, k1: nat, k2: nat)
    requires
        k1 <= k2,
        !q_run(b, caps, vals, eval, beta, best0, k2).0,
    ensures
        !q_run(b, caps, vals, eval, beta, best0, k1).0,
        q_run(b, caps, vals, eval, beta, best0, k1).1 <= q_run(b, caps, vals, eval, beta, best0, k2).1,
    decreases k2,
{
    if k2 > k1 {
        lemma_q_run_grows(b, caps, vals, eval, beta, best0, k1, (k2 - 1) as nat);
    }
}

/// Quiescence searches every capture that does not lose material by exchange: a legal
/// capture whose exchange value is not negative, and that delta pruning cannot pass over
/// (it promotes, or the standing score with the victim's value and a margin of 200
/// reaches the result), is searched in the position it leads to, and a result below
/// `beta` is at least the negated score found there.
pub proof fn lemma_quiescence_tries_sound_captures(b: Board, n: nat, alpha: int, beta: int, r: int, mv: Move)
    requires
        q_value(b, n, alpha, beta, r),
        !draw_at_first_ply(b),
        side_has_king(b.pieces@, b.side),
        pseudo_legal(b, true, mv),
        legal_move(b.pieces@, b.side, mv),
        crate::search::evaluate::exchange_value(b, mv.from_sq() as int, mv.to_sq() as int,
            Piece::from_idx(mv.captured_idx()).ptype(), b.pieces@[mv.from_sq() as int].ptype()) >= 0,
        mv.promoted_idx() != 0 || evaluation(b) + PIECE_VALUE[Piece::from_idx(mv.captured_idx()).ptype().idx() as int] + 200 >= r,
        r < beta,
    ensures
        n > 0,
        exists|c: Board, w: int, v: int| #![trigger q_value(c, (n - 1) as nat, -beta, w, v)]
            crate::perft::leads_to(b, mv, c) && q_value(c, (n - 1) as nat, -beta, w, v) && r >= -v,
{
    let eval = evaluation(b);
    let best0 = q_start(alpha, eval);
    assert(eval < beta);
    let cv = choose|caps: Seq<Move>, vals: Seq<int>| #![trigger q_run(b, caps, vals, eval, beta, best0, caps.len() as nat)] {
        &&& caps.len() == vals.len()
        &&& caps.no_duplicates()
        &&& forall|m: Move| #[trigger] caps.contains(m) == pseudo_legal(b, true, m)
        &&& forall|i: int, j: int| 0 <= i < j < caps.len() ==> move_score(b, #[trigger] caps[i]) >= move_score(b, #[trigger] caps[j])
        &&& forall|k: int| 0 <= k < caps.len() ==> {
            let st = #[trigger] q_run(b, caps, vals, eval, beta, best0, k as nat);
            !st.0 && !q_skips(b, caps[k], eval, st.1) ==> n > 0 && exists|c: Board|
                crate::perft::leads_to(b, caps[k], c) && q_value(c, (n - 1) as nat, -beta, -st.1, -vals[k])
        }
        &&& r == q_run(b, caps, vals, eval, beta, best0, caps.len()).1
    };
    let caps = cv.0;
    let vals = cv.1;
    let len = caps.len();
    assert(caps.contains(mv));
    let k = choose|k: int| 0 <= k < caps.len() && caps[k] == mv;
    let fin = q_run(b, caps, vals, eval, beta, best0, len);
    if fin.0 {
        lemma_q_run_done_beta(b, caps, vals, eval, beta, best0, len);
    }
    lemma_q_run_grows(b, caps, vals, eval, beta, best0, k as nat, len);
    lemma_q_run_grows(b, caps, vals, eval, beta, best0, (k + 1) as nat, len);
    let st = q_run(b, caps, vals, eval, beta, best0, k as nat);
    assert(!q_skips(b, caps[k], eval, st.1));
    let c = choose|c: Board| crate::perft::leads_to(b, caps[k], c) && q_value(c, (n - 1) as nat, -beta, -st.1, -vals[k]);
    assert(q_run(b, caps, vals, eval, beta, best0, (k + 1) as nat).1 >= vals[k]);
    assert(q_value(c, (n - 1) as nat, -beta, -st.1, -vals[k]));
}

impl Board {
    /// Whether the position is drawn for the search: a repetition or fifty moves
    /// without capture or pawn move, counted only at the first ply.
    fn search_draw(&self) -> (r: bool)
        requires
            self.misc_ok(),
        ensures
            r == draw_at_first_ply(*self),
    {
        (self.is_repetition() || self.fifty_move >= 100) && self.ply == 1
    }

    /// Quiescence search: the static evaluation as a standing score, improved by
    /// captures that do not lose material by exchange, until the position is quiet.
    /// The result lies within `[alpha, beta]` unless the position is a draw at the
    /// first ply, which scores 0. The position is left as it was.
    #[verifier::rlimit(40)]
    pub fn quiescence(&mut self, search: &mut Search, alpha: i32, beta: i32) -> (r: i32)
        requires
            old(self).wf(),
            ready(old(self)),
            old(search).wf(),
            -SCORE_LIMIT <= alpha <= SCORE_LIMIT,
            -SCORE_LIMIT <= beta <= SCORE_LIMIT,
            room(old(self), piece_count(old(self).pieces@) as int),
        ensures
            final(self).wf(),
            final(self).same_search(old(self)),
            final(search).wf(),
            -SCORE_LIMIT <= r <= SCORE_LIMIT,
            alpha <= beta ==> r == 0 || (alpha <= r <= beta),
            draw_at_first_ply(*old(self)) ==> r == 0,
            !draw_at_first_ply(*old(self)) && evaluation(*old(self)) >= beta ==> r == beta,
            !draw_at_first_ply(*old(self)) && alpha <= beta && evaluation(*old(self)) < beta
                ==> r >= alpha && r >= evaluation(*old(self)),
            !draw_at_first_ply(*old(self)) && evaluation(*old(self)) < beta
                && (!side_has_king(old(self).pieces@, old(self).side) || no_captures(*old(self)))
                ==> r == (if alpha >= evaluation(*old(self)) { alpha as int } else { evaluation(*old(self)) }),
            final(search).transposition_table == old(search).transposition_table,
            final(search).age == old(search).age,
            final(search).stop_flag == old(search).stop_flag,
            final(search).time_limit_ms == old(search).time_limit_ms,
            final(search).stop_signal == old(search).stop_signal,
            q_value(*old(self), piece_count(old(self).pieces@), alpha as int, beta as int, r as int),
            final(self).killers == old(self).killers,
            final(self).history_heuristic == old(self).history_heuristic,
        decreases piece_count(self.pieces@),
    {
        let ghost start = *self;
        let ghost search0 = *search;
        search.nodes_visited = search.nodes_visited.wrapping_add(1);

        if self.search_draw() {
            return 0;
        }

        let mut best = alpha;
        let evaluate = self.evaluate();
        if evaluate >= beta {
            return beta;
        }
        if evaluate > best {
            best = evaluate;
        }

        if !side_king_present(self) {
            return best;
        }

        let mut movelist = MoveList::new();
        movelist.generate_all_captures(self);
        let ghost unsorted = movelist.moves@;
        movelist.sort();
        proof {
            broadcast use vstd::seq_lib::group_to_multiset_ensures;
            assert forall|k: int| 0 <= k < movelist.moves@.len() implies #[trigger] generated(start, movelist.moves@[k], true) by {
                assert(movelist.moves@.to_multiset().count(movelist.moves@[k]) > 0);
            }
            reveal(no_captures);
            if no_captures(start) {
                if unsorted.len() > 0 {
                    assert(listed(unsorted, unsorted[0].mv));
                }
                assert(movelist.moves@.len() == unsorted.to_multiset().len());
            }
        }

        let count = movelist.moves.len();
        let ghost caps = Seq::new(count as nat, |k: int| movelist.moves@[k].mv);
        let ghost best0: int = best as int;
        let ghost mut vals: Seq<int> = Seq::empty();
        let ghost n = piece_count(start.pieces@);
        proof {
            assert forall|a: int, c: int| 0 <= a < caps.len() && 0 <= c < caps.len() && a != c implies caps[a] != caps[c] by {
                if a < c {
                    assert(movelist.moves@[a].mv != movelist.moves@[c].mv);
                } else {
                    assert(movelist.moves@[c].mv != movelist.moves@[a].mv);
                }
            }
            lemma_listed_same_entries(unsorted, movelist.moves@);
            assert forall|m: Move| #[trigger] caps.contains(m) == pseudo_legal(start, true, m) by {
                if caps.contains(m) {
                    let k = choose|k: int| 0 <= k < caps.len() && caps[k] == m;
                    assert(movelist.moves@[k].mv == m);
                    assert(listed(movelist.moves@, m));
                }
                if pseudo_legal(start, true, m) {
                    assert(listed(unsorted, m));
                    let k = choose|k: int| 0 <= k < movelist.moves@.len() && #[trigger] movelist.moves@[k].mv == m;
                    assert(caps[k] == m);
                }
            }
            assert forall|a: int, c: int| 0 <= a < c < caps.len() implies move_score(start, #[trigger] caps[a]) >= move_score(start, #[trigger] caps[c]) by {
                assert(generated(start, movelist.moves@[a], true));
                assert(generated(start, movelist.moves@[c], true));
            }
        }
        let mut i: usize = 0;
        while i < count
            invariant
                0 <= i <= count,
                count == movelist.moves.len(),
                caps.len() == count,
                forall|k: int| 0 <= k < count ==> #[trigger] caps[k] == movelist.moves@[k].mv,
                caps.no_duplicates(),
                forall|m: Move| #[trigger] caps.contains(m) == pseudo_legal(start, true, m),
                forall|a: int, c: int| 0 <= a < c < caps.len() ==> move_score(start, #[trigger] caps[a]) >= move_score(start, #[trigger] caps[c]),
                vals.len() == i,
                best0 == (if alpha >= evaluate { alpha as int } else { evaluate as int }),
                n == piece_count(start.pieces@),
                !q_run(start, caps, vals, evaluate as int, beta as int, best0, i as nat).0,
                q_run(start, caps, vals, evaluate as int, beta as int, best0, i as nat).1 == best,
                forall|k: int| 0 <= k < i ==> #[trigger] q_child_ok(start, caps, vals, evaluate as int, beta as int, best0, k, n),
                self.wf(),
                ready(self),
                self.same_search(&start),
                start == *old(self),
                start.wf(),
                room(&start, piece_count(start.pieces@) as int),
                search.wf(),
                side_has_king(start.pieces@, start.side),
                -SCORE_LIMIT <= best <= SCORE_LIMIT,
                -SCORE_LIMIT <= beta <= SCORE_LIMIT,
                -SCORE_LIMIT <= evaluate <= SCORE_LIMIT,
                alpha <= beta ==> alpha <= best <= beta,
                best >= alpha,
                best >= evaluate,
                evaluate == evaluation(start),
                evaluate < beta,
                count == 0 ==> best == (if alpha >= evaluate { alpha } else { evaluate }),
                no_captures(start) ==> count == 0,
                !draw_at_first_ply(start),
                search.transposition_table == search0.transposition_table,
                search.age == search0.age,
                search.stop_flag == search0.stop_flag,
                search.time_limit_ms == search0.time_limit_ms,
                search.stop_signal == search0.stop_signal,
                search0 == *old(search),
                forall|k: int| 0 <= k < count ==> #[trigger] generated(start, movelist.moves@[k], true),
                self.killers == start.killers,
                self.history_heuristic == start.history_heuristic,
            decreases count - i,
        {
            let mv = movelist.moves[i].mv;
            let ghost k0 = i as nat;
            let ghost vals_old = vals;
            proof {
                assert(generated(start, movelist.moves@[i as int], true));
                crate::movegen::lemma_move_squares(mv);
                lemma_capture_removes_one(start.pieces@, start.side, mv);
                assert(caps[i as int] == mv);
            }
            i += 1;
            let from = mv.from_square();
            let victim = Piece::from_index(mv.captured()).piece_type();
            let exchange = self.static_exchange_evaluation(from, mv.to_square(), victim, self.pieces[from].piece_type());
            proof {
                lemma_recapture_same(*self, start, mv.to_sq() as int, start.side.flip(),
                    start.occupancies[2] & !(1u64 << (from as u64)), crate::search::evaluate::piece_value(start.pieces@[from as int].ptype()));
            }
            if exchange < 0 {
                proof {
                    assert(q_skips(start, mv, evaluate as int, best as int));
                    lemma_q_extend(start, caps, vals_old, 0, evaluate as int, beta as int, best0, n);
                    vals = vals.push(0);
                }
                continue;
            }

            let captured_piece_value = PIECE_VALUE[victim.index()];
            if mv.promoted() == 0 {
                if evaluate + captured_piece_value + 200 < best {
                    proof {
                        assert(q_skips(start, mv, evaluate as int, best as int));
                        lemma_q_extend(start, caps, vals_old, 0, evaluate as int, beta as int, best0, n);
                        vals = vals.push(0);
                    }
                    continue;
                }
            }

            let ghost before = *self;
            if !self.make_move(mv) {
                proof {
                    lemma_same_search_trans(self, &before, &start);
                    assert(q_skips(start, mv, evaluate as int, best as int));
                    lemma_q_extend(start, caps, vals_old, 0, evaluate as int, beta as int, best0, n);
                    vals = vals.push(0);
                }
                continue;
            }
            let ghost mid = *self;
            proof {
                assert(before.pieces@ == start.pieces@);
            }
            let child = self.quiescence(search, -beta, -best);
            let score = -child;
            let ghost later = *self;
            self.take_move();
            proof {
                lemma_search_take_back(&before, &mid, &later, self, mv);
                lemma_same_search_trans(self, &before, &start);
                assert(crate::perft::leads_to(start, mv, mid));
                assert(q_value(mid, (n - 1) as nat, -beta, -best, child as int));
                lemma_q_extend(start, caps, vals_old, score as int, evaluate as int, beta as int, best0, n);
                vals = vals.push(score as int);
            }

            if score >= beta {
                proof {
                    lemma_q_run_done(start, caps, vals, evaluate as int, beta as int, best0, i as nat, count as nat);
                    let rest = Seq::new((count - i) as nat, |j: int| 0int);
                    let full = vals + rest;
                    lemma_q_run_prefix(start, caps, vals, full, evaluate as int, beta as int, best0, i as nat);
                    assert forall|j: int| 0 <= j < i implies #[trigger] q_child_ok(start, caps, full, evaluate as int, beta as int, best0, j, n) by {
                        assert(q_child_ok(start, caps, vals, evaluate as int, beta as int, best0, j, n));
                        lemma_q_run_prefix(start, caps, vals, full, evaluate as int, beta as int, best0, j as nat);
                        assert(full[j] == vals[j]);
                    }
                    assert forall|j: int| i <= j < count implies #[trigger] q_child_ok(start, caps, full, evaluate as int, beta as int, best0, j, n) by {
                        lemma_q_run_done(start, caps, full, evaluate as int, beta as int, best0, i as nat, j as nat);
                    }
                    lemma_q_run_done(start, caps, full, evaluate as int, beta as int, best0, i as nat, count as nat);
                    lemma_q_conclude(start, caps, full, evaluate as int, beta as int, best0, n, alpha as int, beta as int);
                }
                return beta;
            }
            if score > best {
                best = score;
            }
        }
        proof {
            lemma_q_conclude(start, caps, vals, evaluate as int, beta as int, best0, n, alpha as int, best as int);
        }
        best
    }
}

impl Board {
    /// Records `mv` as the first killer move of this ply, the previous first one moving
    /// to the second slot, unless it already is the first.
    fn store_killer(&mut self, mv: Move)
        requires
            old(self).wf(),
        ensures
            final(self).wf(),
            final(self).same_search(old(self)),
            final(self).history_heuristic == old(self).history_heuristic,
            final(self).killers@ == (if old(self).ply < MAX_DEPTH && old(self).killers[old(self).ply as int][0] != Some(mv) {
                old(self).killers@.update(old(self).ply as int, [Some(mv), old(self).killers[old(self).ply as int][0]])
            } else {
                old(self).killers@
            }),
    {
        let ghost before = *self;
        let ply = self.ply as usize;
        if ply < MAX_DEPTH {
            let first = self.killers[ply][0];
            let same = match first {
                Some(k) => k.0 == mv.0,
                None => false,
            };
            if !same {
                let mut slots = self.killers[ply];
                slots[1] = first;
                slots[0] = Some(mv);
                self.killers[ply] = slots;
                proof {
                    assert(slots =~= [Some(mv), before.killers[ply as int][0]]);
                    assert(self.killers@ =~= before.killers@.update(ply as int, [Some(mv), before.killers[ply as int][0]]));
                    lemma_bb_ok_frame(&before, self);
                    assert forall|i: int| 0 <= i < self.history_ply implies #[trigger] self.record_ok(i) by {
                        assert(before.record_ok(i));
                    }
                }
            }
        }
    }

    /// Alpha-beta search to `depth` plies, then quiescence search. Scores are from the
    /// side to move's point of view; a mate found `n` plies from the root scores
    /// `MATE_SCORE - n`. Positions reached again are scored from the transposition
    /// table when it holds a deep enough entry, and each searched position's result is
    /// stored there. Moves are tried in descending order of score, the table's move for
    /// the position first; a quiet move that reaches `beta` becomes the first killer move
    /// of its ply, and its history score rises while those of the quiet moves tried
    /// before it fall. The search stops, scoring 0, once the time limit has passed.
    /// `do_null` is passed on unchanged: this search tries no null move.
    /// The position is left as it was, but for the killer and history tables.
    #[verifier::spinoff_prover]
    #[verifier::rlimit(60)]
    pub fn alpha_beta(&mut self, search: &mut Search, alpha: i32, beta: i32, depth: u8, do_null: bool) -> (r: i32)
        requires
            old(self).wf(),
            ready(old(self)),
            old(search).wf(),
            -SCORE_LIMIT <= alpha <= SCORE_LIMIT,
            -SCORE_LIMIT <= beta <= SCORE_LIMIT,
            room(old(self), depth as int + 64),
        ensures
            final(self).wf(),
            final(self).same_search(old(self)),
            final(search).wf(),
            keeps_control(*final(search), *old(search)),
            -SCORE_LIMIT <= r <= SCORE_LIMIT,
            ({
                &&& old(search).time_limit_ms == 0
                &&& !old(search).stop_flag
                &&& old(search).stop_signal is None
                &&& depth > 0
                &&& !draw_at_first_ply(*old(self))
                &&& !tt_cutoff(old(search).transposition_table, *old(self), alpha, beta, depth)
                &&& side_has_king(old(self).pieces@, old(self).side)
                &&& no_legal_move(*old(self))
            }) ==> r == (if in_check(old(self).pieces@, old(self).side) { -MATE_SCORE + old(self).ply } else { 0 }),
            final(search).age == old(search).age,
            forall|d: int| #![trigger depth_bounded(final(search).transposition_table, d)]
                depth <= d && depth_bounded(old(search).transposition_table, d)
                ==> depth_bounded(final(search).transposition_table, d),
            ({
                &&& old(search).time_limit_ms == 0
                &&& !old(search).stop_flag
                &&& old(search).stop_signal is None
                &&& 0 < depth < 64
                &&& !draw_at_first_ply(*old(self))
                &&& !tt_cutoff(old(search).transposition_table, *old(self), alpha, beta, depth)
                &&& side_has_king(old(self).pieces@, old(self).side)
                &&& !no_legal_move(*old(self))
                &&& -MATE_SCORE <= alpha
                &&& depth_bounded(old(search).transposition_table, depth as int)
            }) ==> stored_result(final(search).transposition_table, *old(self), depth, old(search).age, alpha as int, beta as int, r as int),
            unstoppable(*old(search)) ==> ab_value(*old(self), old(search).transposition_table, depth as nat, alpha as int,
                beta as int, old(search).age, r as int, (Tables {
                    table: final(search).transposition_table,
                    killers: final(self).killers,
                    history: final(self).history_heuristic,
                })),
        decreases depth,
    {
        let ghost start = *self;
        if search.nodes_visited & 2048 == 0 && search.should_stop() {
            return 0;
        }
        if search.stopped() {
            return 0;
        }
        search.nodes_visited = search.nodes_visited.wrapping_add(1);

        if depth == 0 {
            proof {
                crate::makemove::lemma_occupied_bound(self.pieces@, 64);
            }
            return self.quiescence(search, alpha, beta);
        }
        if self.search_draw() {
            return 0;
        }

        let position_key = self.position_key;
        let alpha_at_entry = alpha;
        let mut alpha = alpha;

        let mut transposition_move = Move(0);
        if let Some(transposition_data) = search.transposition_table.probe(position_key) {
            transposition_move = transposition_data.get_move();
            if transposition_data.get_depth() >= depth {
                let mut transposition_score = transposition_data.get_score() as i32;
                if transposition_score >= MATE_THRESHOLD {
                    transposition_score -= self.ply as i32;
                } else if transposition_score <= -MATE_THRESHOLD {
                    transposition_score += self.ply as i32;
                }
                let flag = transposition_data.get_flag();
                if flag == EXACT_FLAG {
                    return transposition_score;
                } else if flag == ALPHA_FLAG {
                    if transposition_score <= alpha {
                        return transposition_score;
                    }
                } else if flag == BETA_FLAG {
                    if transposition_score >= beta {
                        return transposition_score;
                    }
                }
            }
        }

        if !side_king_present(self) {
            return 0;
        }
        let in_check = square_attacked(self.king_square[self.side.index()], self.side, self);
        proof {
            lemma_king_square_check(&start);
        }

        let mut best_move = Move(0);
        let mut best_score = -MATE_SCORE;
        let mut found_any_legal_moves = false;

        let mut movelist = MoveList::new();
        movelist.generate_all_moves(self);
        proof {
            assert forall|k: int| 0 <= k < movelist.moves@.len() implies #[trigger] move_of(start, movelist.moves@[k].mv) by {
                assert(generated(start, movelist.moves@[k], false));
                assert(listed(movelist.moves@, movelist.moves@[k].mv));
            }
        }

        let ghost code = transposition_move.0;
        proof {
            assert(code == table_move_code(search.transposition_table, position_key));
            assert forall|k: int| 0 <= k < movelist.moves@.len() implies
                #[trigger] movelist.moves@[k].score == move_score(start, movelist.moves@[k].mv) by {
                assert(generated(start, movelist.moves@[k], false));
            }
        }
        let mut t: usize = 0;
        while t < movelist.moves.len()
            invariant_except_break
                forall|k: int| 0 <= k < t ==> movelist.moves@[k].mv.0 != code,
                forall|k: int| 0 <= k < movelist.moves@.len() ==>
                    #[trigger] movelist.moves@[k].score == move_score(start, movelist.moves@[k].mv),
            invariant
                code == transposition_move.0,
                movelist.wf(),
                all_generated_moves(start, movelist.moves@),
                forall|m: Move| #[trigger] listed(movelist.moves@, m) == pseudo_legal(start, false, m),
                distinct_moves(movelist.moves@),
            ensures
                forall|k: int| 0 <= k < movelist.moves@.len() ==>
                    #[trigger] movelist.moves@[k].score == order_score(start, code, movelist.moves@[k].mv),
            decreases movelist.moves.len() - t,
        {
            if movelist.moves[t].mv.0 == transposition_move.0 {
                let ghost before_boost = movelist.moves@;
                let boosted = ScoredMove::new(movelist.moves[t].mv, 30000);
                movelist.moves.set(t, boosted);
                proof {
                    assert forall|x: int, y: int| 0 <= x < y < movelist.moves@.len() implies
                        #[trigger] movelist.moves@[x].mv != #[trigger] movelist.moves@[y].mv by {
                        assert(movelist.moves@[x].mv == before_boost[x].mv);
                        assert(movelist.moves@[y].mv == before_boost[y].mv);
                    }
                    assert forall|m: Move| #[trigger] listed(movelist.moves@, m) == listed(before_boost, m) by {
                        if listed(before_boost, m) {
                            let k = choose|k: int| 0 <= k < before_boost.len() && #[trigger] before_boost[k].mv == m;
                            assert(movelist.moves@[k].mv == m);
                        }
                        if listed(movelist.moves@, m) {
                            let k = choose|k: int| 0 <= k < movelist.moves@.len() && #[trigger] movelist.moves@[k].mv == m;
                            assert(before_boost[k].mv == m);
                        }
                    }
                    assert forall|k: int| 0 <= k < movelist.moves@.len() implies
                        #[trigger] movelist.moves@[k].score == order_score(start, code, movelist.moves@[k].mv) by {
                        if k != t {
                            assert(before_boost[k].mv != before_boost[t as int].mv);
                            assert(movelist.moves@[k] == before_boost[k]);
                        }
                    }
                }
                break;
            }
            t += 1;
        }

        let ghost unsorted = movelist.moves@;
        movelist.sort();
        proof {
            broadcast use vstd::seq_lib::group_to_multiset_ensures;
            assert forall|k: int| 0 <= k < movelist.moves@.len() implies #[trigger] move_of(start, movelist.moves@[k].mv) by {
                assert(movelist.moves@.to_multiset().count(movelist.moves@[k]) > 0);
            }
            assert forall|k: int| 0 <= k < movelist.moves@.len() implies
                #[trigger] movelist.moves@[k].score == order_score(start, code, movelist.moves@[k].mv) by {
                assert(movelist.moves@.to_multiset().count(movelist.moves@[k]) > 0);
                assert(unsorted.contains(movelist.moves@[k]));
            }
            lemma_listed_same_entries(unsorted, movelist.moves@);
        }
        let ghost every = movelist.moves@;

        let count = movelist.moves.len();
        let ghost caps = Seq::new(count as nat, |k: int| movelist.moves@[k].mv);
        let ghost t0 = search.transposition_table;
        let ghost mut vals: Seq<int> = Seq::empty();
        let ghost mut ss: Seq<Tables> = seq![tables_of(start, t0)];
        let ghost age = search.age;
        proof {
            reveal(in_search_order);
            assert(code == table_move_code(t0, start.position_key));
            assert forall|a: int, c: int| 0 <= a < c < caps.len() implies
                #[trigger] order_score(start, table_move_code(t0, start.position_key), caps[a])
                    >= #[trigger] order_score(start, table_move_code(t0, start.position_key), caps[c]) by {
                assert(caps[a] == movelist.moves@[a].mv);
                assert(caps[c] == movelist.moves@[c].mv);
            }
            assert(in_search_order(start, t0, caps));
            assert forall|a: int, c: int| 0 <= a < caps.len() && 0 <= c < caps.len() && a != c implies caps[a] != caps[c] by {
                if a < c {
                    assert(movelist.moves@[a].mv != movelist.moves@[c].mv);
                } else {
                    assert(movelist.moves@[c].mv != movelist.moves@[a].mv);
                }
            }
            assert forall|m: Move| #[trigger] caps.contains(m) == pseudo_legal(start, false, m) by {
                if caps.contains(m) {
                    let k = choose|k: int| 0 <= k < caps.len() && caps[k] == m;
                    assert(movelist.moves@[k].mv == m);
                    assert(listed(movelist.moves@, m));
                }
                if pseudo_legal(start, false, m) {
                    assert(listed(movelist.moves@, m));
                    let k = choose|k: int| 0 <= k < movelist.moves@.len() && #[trigger] movelist.moves@[k].mv == m;
                    assert(caps[k] == m);
                }
            }
        }
        let mut i: usize = 0;
        while i < count
            invariant_except_break
                vals.len() == i,
                ss.len() == i + 1,
                ss[0] == tables_of(start, t0),
                ss[i as int] == (Tables { table: search.transposition_table, killers: self.killers, history: self.history_heuristic }),
                !ab_run(start, caps, vals, alpha_at_entry as int, beta as int, i as nat).0,
                ab_run(start, caps, vals, alpha_at_entry as int, beta as int, i as nat).1 == alpha,
                ab_run(start, caps, vals, alpha_at_entry as int, beta as int, i as nat).2 == best_score,
                ab_run(start, caps, vals, alpha_at_entry as int, beta as int, i as nat).3 == found_any_legal_moves,
                ab_run(start, caps, vals, alpha_at_entry as int, beta as int, i as nat).4 == best_move,
                unstoppable(*old(search)) ==> forall|k: int| 0 <= k < i ==> #[trigger] ab_child_ok(start, caps, vals, ss,
                    alpha_at_entry as int, beta as int, depth as nat, age, k),
            invariant
                0 <= i <= count,
                count == movelist.moves.len(),
                caps.len() == count,
                forall|k: int| 0 <= k < count ==> #[trigger] caps[k] == movelist.moves@[k].mv,
                caps.no_duplicates(),
                forall|m: Move| #[trigger] caps.contains(m) == pseudo_legal(start, false, m),
                in_search_order(start, t0, caps),
                t0 == old(search).transposition_table,
                age == old(search).age,
                depth >= 1,
                self.wf(),
                ready(self),
                self.same_search(&start),
                start == *old(self),
                start.wf(),
                room(&start, depth as int + 64),
                search.wf(),
                side_has_king(start.pieces@, start.side),
                -SCORE_LIMIT <= alpha <= SCORE_LIMIT,
                -SCORE_LIMIT <= beta <= SCORE_LIMIT,
                -SCORE_LIMIT <= best_score <= SCORE_LIMIT,
                forall|k: int| 0 <= k < count ==> #[trigger] move_of(start, movelist.moves@[k].mv),
                keeps_control(*search, *old(search)),
                no_legal_move(start) ==> !found_any_legal_moves,
                !found_any_legal_moves ==> best_score == -MATE_SCORE,
                every == movelist.moves@,
                forall|m: Move| #[trigger] listed(every, m) == pseudo_legal(start, false, m),
                !found_any_legal_moves ==> forall|k: int| 0 <= k < i ==> !legal_move(start.pieces@, start.side, #[trigger] every[k].mv),
                search.age == old(search).age,
                forall|d: int| #![trigger depth_bounded(search.transposition_table, d)]
                    depth <= d && depth_bounded(old(search).transposition_table, d)
                    ==> depth_bounded(search.transposition_table, d),
                alpha_at_entry <= alpha,
                -MATE_SCORE <= alpha_at_entry ==> (best_score <= alpha_at_entry ==> alpha == alpha_at_entry),
                -MATE_SCORE <= alpha_at_entry ==> (best_score > alpha_at_entry ==> alpha == best_score),
                alpha == alpha_at_entry ==> best_move == Move(0),
                alpha > alpha_at_entry ==> pseudo_legal(start, false, best_move) && legal_move(start.pieces@, start.side, best_move),
            ensures
                found_any_legal_moves || i == count,
                !found_any_legal_moves ==> !ab_run(start, caps, vals, alpha_at_entry as int, beta as int, count as nat).0,
                vals.len() == count,
                ss.len() == count + 1,
                ss[0] == tables_of(start, t0),
                ss[count as int].table == search.transposition_table,
                ({
                    let fin = ab_run(start, caps, vals, alpha_at_entry as int, beta as int, count as nat);
                    if fin.0 && caps[fin.5].captured_idx() == 0 {
                        cut_tables(start, ss[count as int], (Tables {
                            table: search.transposition_table,
                            killers: self.killers,
                            history: self.history_heuristic,
                        }), caps, fin.5, depth)
                    } else {
                        self.killers == ss[count as int].killers && self.history_heuristic == ss[count as int].history
                    }
                }),
                ab_run(start, caps, vals, alpha_at_entry as int, beta as int, count as nat).1 == alpha,
                ab_run(start, caps, vals, alpha_at_entry as int, beta as int, count as nat).2 == best_score,
                ab_run(start, caps, vals, alpha_at_entry as int, beta as int, count as nat).3 == found_any_legal_moves,
                ab_run(start, caps, vals, alpha_at_entry as int, beta as int, count as nat).4 == best_move,
                unstoppable(*old(search)) ==> forall|k: int| 0 <= k < count ==> #[trigger] ab_child_ok(start, caps, vals, ss,
                    alpha_at_entry as int, beta as int, depth as nat, age, k),
            decreases count - i,
        {
            let mv = movelist.moves[i].mv;
            let ghost k0 = i as nat;
            let ghost vals_old = vals;
            let ghost ss_old = ss;
            proof {
                assert(move_of(start, movelist.moves@[i as int].mv));
                assert(caps[i as int] == mv);
            }
            let ghost before = *self;
            if !self.make_move(mv) {
                proof {
                    lemma_same_search_trans(self, &before, &start);
                    lemma_ab_run_prefix(start, caps, vals_old, vals_old.push(0), alpha_at_entry as int, beta as int, k0);
                    if unstoppable(*old(search)) {
                        lemma_ab_extend(start, caps, vals_old, ss_old, 0, ss_old[i as int],
                            alpha_at_entry as int, beta as int, depth as nat, age);
                    }
                    vals = vals.push(0);
                    ss = ss.push(ss_old[i as int]);
                }
                i += 1;
                continue;
            }
            proof {
                assert(pseudo_legal(start, false, mv));
            }
            let ghost mid = *self;
            let ghost search_pre = *search;
            let child = self.alpha_beta(search, -beta, -alpha, depth - 1, do_null);
            let evaluation = -child;
            proof {
                assert forall|d: int| #![trigger depth_bounded(search.transposition_table, d)]
                    depth <= d && depth_bounded(old(search).transposition_table, d)
                    implies depth_bounded(search.transposition_table, d) by {
                    assert(depth_bounded(search_pre.transposition_table, d));
                }
            }
            let ghost later = *self;
            self.take_move();
            proof {
                lemma_search_take_back(&before, &mid, &later, self, mv);
                lemma_same_search_trans(self, &before, &start);
                lemma_ab_run_prefix(start, caps, vals_old, vals_old.push(evaluation as int), alpha_at_entry as int, beta as int, k0);
                let s_next = Tables { table: search.transposition_table, killers: self.killers, history: self.history_heuristic };
                if unstoppable(*old(search)) {
                    assert(crate::perft::leads_to(start, mv, mid));
                    assert(mid.killers == ss_old[i as int].killers);
                    assert(mid.history_heuristic == ss_old[i as int].history);
                    lemma_ab_extend(start, caps, vals_old, ss_old, evaluation as int, s_next,
                        alpha_at_entry as int, beta as int, depth as nat, age);
                }
                vals = vals.push(evaluation as int);
                ss = ss.push(s_next);
            }

            found_any_legal_moves = true;
            if evaluation > best_score {
                best_score = evaluation;
            }
            if evaluation > alpha {
                alpha = evaluation;
                best_move = mv;
            }

            if beta <= alpha {
                let ghost s_cut = ss[i as int + 1];
                proof {
                    assert(ab_run(start, caps, vals, alpha_at_entry as int, beta as int, (i + 1) as nat).5 == i);
                }
                if mv.captured() == 0 {
                    let ghost b0 = *self;
                    self.store_killer(mv);
                    let ghost b1 = *self;
                    self.update_history(mv, depth, true);
                    proof {
                        lemma_same_search_trans(self, &b0, &start);
                        assert forall|p: int, q: int| 0 <= p < 32 && 0 <= q < 64 implies
                            #[trigger] self.history_heuristic[p][q] as int == history_at(s_cut.history, start.pieces@, caps, i as int, 0, depth, p, q) by {
                        }
                    }
                    let mut j: usize = 0;
                    while movelist.moves[j].mv.0 != mv.0
                        invariant
                            j <= i < count,
                            count == movelist.moves.len(),
                            movelist.moves@[i as int].mv == mv,
                            caps.len() == count,
                            forall|k: int| 0 <= k < count ==> #[trigger] caps[k] == movelist.moves@[k].mv,
                            caps.no_duplicates(),
                            self.wf(),
                            self.same_search(&start),
                            start.wf(),
                            self.killers@ == killers_after(s_cut.killers, start.ply as int, mv),
                            forall|p: int, q: int| 0 <= p < 32 && 0 <= q < 64 ==>
                                #[trigger] self.history_heuristic[p][q] as int == history_at(s_cut.history, start.pieces@, caps, i as int, j as nat, depth, p, q),
                        decreases i - j,
                    {
                        let prev = movelist.moves[j].mv;
                        let ghost h0 = self.history_heuristic;
                        if prev.captured() == 0 {
                            let ghost b2 = *self;
                            self.update_history(prev, depth, false);
                            proof {
                                lemma_same_search_trans(self, &b2, &start);
                            }
                        }
                        proof {
                            assert(caps[j as int] == prev);
                            assert forall|p: int, q: int| 0 <= p < 32 && 0 <= q < 64 implies
                                #[trigger] self.history_heuristic[p][q] as int == history_at(s_cut.history, start.pieces@, caps, i as int, (j + 1) as nat, depth, p, q) by {
                                assert(h0[p][q] as int == history_at(s_cut.history, start.pieces@, caps, i as int, j as nat, depth, p, q));
                            }
                        }
                        j += 1;
                    }
                    proof {
                        if j != i {
                            assert(caps[j as int] == caps[i as int]);
                        }
                    }
                }
                proof {
                    let n_rest = (count - i - 1) as nat;
                    let full = vals + Seq::new(n_rest, |j: int| 0int);
                    let tfull = ss + Seq::new(n_rest, |j: int| s_cut);
                    assert(ab_run(start, caps, vals, alpha_at_entry as int, beta as int, (i + 1) as nat).0);
                    lemma_ab_run_prefix(start, caps, vals, full, alpha_at_entry as int, beta as int, (i + 1) as nat);
                    lemma_ab_run_done(start, caps, full, alpha_at_entry as int, beta as int, (i + 1) as nat, count as nat);
                    if unstoppable(*old(search)) {
                        assert forall|k: int| 0 <= k < count implies #[trigger] ab_child_ok(start, caps, full, tfull,
                            alpha_at_entry as int, beta as int, depth as nat, age, k) by {
                            if k <= i {
                                assert(ab_child_ok(start, caps, vals, ss, alpha_at_entry as int, beta as int, depth as nat, age, k));
                                lemma_ab_run_prefix(start, caps, vals, full, alpha_at_entry as int, beta as int, k as nat);
                                assert(full[k] == vals[k]);
                                assert(tfull[k] == ss[k]);
                                assert(tfull[k + 1] == ss[k + 1]);
                            } else {
                                lemma_ab_run_done(start, caps, full, alpha_at_entry as int, beta as int, (i + 1) as nat, k as nat);
                                assert(tfull[k] == s_cut);
                                assert(tfull[k + 1] == s_cut);
                            }
                        }
                    }
                    assert(tfull[count as int] == s_cut);
                    vals = full;
                    ss = tfull;
                }
                break;
            }
            i += 1;
        }

        let ghost s_loop = Tables { table: search.transposition_table, killers: self.killers, history: self.history_heuristic };
        if found_any_legal_moves {
            let flag = if alpha <= alpha_at_entry {
                ALPHA_FLAG
            } else if beta <= alpha {
                BETA_FLAG
            } else {
                EXACT_FLAG
            };
            let mut data = TranspositionData(0);
            let mut normalized_score = best_score;
            if normalized_score >= MATE_THRESHOLD {
                normalized_score += self.ply as i32;
            } else if normalized_score <= -MATE_THRESHOLD {
                normalized_score -= self.ply as i32;
            }
            let clamped = if normalized_score < -32768 {
                -32768i16
            } else if normalized_score > 32767 {
                32767i16
            } else {
                normalized_score as i16
            };
            data.set_move(best_move);
            data.set_depth(depth);
            data.set_flag(flag);
            data.set_age(search.age);
            data.set_score(clamped);
            let ghost t_pre = search.transposition_table;
            search.transposition_table.store(position_key, data);
            proof {
                let t_post = search.transposition_table;
                assert((depth & 0x3Fu8) <= depth) by (bit_vector);
                t_pre.lemma_shape();
                t_post.lemma_shape();
                let slot = slot_of(position_key, t_pre.spec_mask());
                assert forall|d: int| #![trigger depth_bounded(search.transposition_table, d)]
                    depth <= d && depth_bounded(old(search).transposition_table, d)
                    implies depth_bounded(search.transposition_table, d) by {
                    assert(depth_bounded(t_pre, d));
                    assert forall|j: int| 0 <= j < t_post.slots().len() implies data_depth(#[trigger] t_post.slots()[j].data) <= d by {
                        assert(t_pre.slots()[j] == t_post.slots()[j] || j == slot);
                        if j != slot {
                            assert(data_depth(t_pre.slots()[j].data) <= d);
                        }
                    }
                }
                if old(search).time_limit_ms == 0 && !old(search).stop_flag && old(search).stop_signal is None
                    && depth < 64 && -MATE_SCORE <= alpha_at_entry
                    && depth_bounded(old(search).transposition_table, depth as int) {
                    assert(depth_bounded(t_pre, depth as int));
                    assert(depth < 64 ==> (depth & 0x3Fu8) == depth) by (bit_vector);
                    let e = t_pre.slots()[slot];
                    assert(data_depth(e.data) <= depth);
                    assert(replaces(e, position_key, data));
                    lemma_probe_after_store(t_pre, t_post, position_key, data);
                    assert(flag & 0x03u8 == flag) by (bit_vector)
                        requires flag == 1u8 || flag == 2u8 || flag == 3u8;
                    assert(Move(data_move(data.0)) == best_move);
                }
                if unstoppable(*old(search)) {
                    assert(flag & 0x03u8 == flag) by (bit_vector)
                        requires flag == 1u8 || flag == 2u8 || flag == 3u8;
                    let s2 = Tables { table: t_post, killers: self.killers, history: self.history_heuristic };
                    assert(table_after_store(ss[count as int].table, s2.table, start.position_key, data));
                    let fin = ab_run(start, caps, vals, alpha_at_entry as int, beta as int, count as nat);
                    if fin.0 && caps[fin.5].captured_idx() == 0 {
                        assert(cut_tables(start, ss[count as int], s_loop, caps, fin.5, depth));
                        assert forall|p: int, q: int| 0 <= p < 32 && 0 <= q < 64 implies
                            #[trigger] s2.history[p][q] as int == history_at(ss[count as int].history, start.pieces@, caps, fin.5, fin.5 as nat, depth, p, q) by {
                            assert(s_loop.history[p][q] == s2.history[p][q]);
                        }
                        assert(cut_tables(start, ss[count as int], s2, caps, fin.5, depth));
                    } else {
                        assert(s2.killers == ss[count as int].killers && s2.history == ss[count as int].history);
                    }
                    assert(data_move(data.0) == fin.4.0);
                    assert(data_depth(data.0) == (depth as u8) & 0x3F);
                    assert(data_age(data.0) == age);
                    assert(data_flag(data.0) == (if fin.1 <= alpha_at_entry { ALPHA_FLAG } else if beta <= fin.1 { BETA_FLAG } else { EXACT_FLAG }));
                    assert(data_score(data.0) == table_score(fin.2, start.ply as int));
                    assert(ab_stored(start, ss[count as int], s2, caps,
                        ab_run(start, caps, vals, alpha_at_entry as int, beta as int, count as nat), depth as nat,
                        alpha_at_entry as int, beta as int, age));
                    lemma_ab_conclude(start, t0, s2, caps, vals, ss, alpha_at_entry as int, beta as int, depth as nat, age,
                        best_score as int);
                }
            }
        } else {
            proof {
                assert forall|mv: Move| #[trigger] pseudo_legal(start, false, mv) implies !legal_move(start.pieces@, start.side, mv) by {
                    assert(listed(every, mv));
                    let k = choose|k: int| 0 <= k < every.len() && #[trigger] every[k].mv == mv;
                    assert(!legal_move(start.pieces@, start.side, every[k].mv));
                }
                assert(no_legal_move(start));
                if unstoppable(*old(search)) {
                    assert((Tables { table: search.transposition_table, killers: self.killers, history: self.history_heuristic })
                        == ss[count as int]);
                    lemma_ab_conclude(start, t0, Tables { table: search.transposition_table, killers: self.killers, history: self.history_heuristic },
                        caps, vals, ss, alpha_at_entry as int, beta as int,
                        depth as nat, age, (if in_check { -MATE_SCORE + self.ply as i32 } else { 0 }) as int);
                }
            }
            return if in_check {
                -MATE_SCORE + self.ply as i32
            } else {
                0
            };
        }
        best_score
    }
}

/// The move the table holds for `key`, unless it holds no entry or the null move.
pub open spec fn table_move(t: TranspositionTable, key: u64) -> Option<Move> {
    match t.lookup(key) {
        Some(d) => if data_move(d.0) != 0 {
            Some(Move(data_move(d.0)))
        } else {
            None
        },
        None => None,
    }
}

/// Every entry of the table is at most `d` plies deep.
pub open spec fn depth_bounded(t: TranspositionTable, d: int) -> bool {
    forall|i: int| 0 <= i < t.slots().len() ==> data_depth(#[trigger] t.slots()[i].data) <= d
}

/// The score the table keeps for `score` found `ply` plies from the root: a mate score
/// counted from the position itself, then clamped to 16 bits.
pub open spec fn table_score(score: int, ply: int) -> int {
    let n = if score >= MATE_THRESHOLD {
        score + ply
    } else if score <= -MATE_THRESHOLD {
        score - ply
    } else {
        score
    };
    if n < -32768 {
        -32768
    } else if n > 32767 {
        32767
    } else {
        n
    }
}

/// The bound a result of the window `[alpha, beta]` is stored as: an upper bound when it
/// did not raise `alpha`, a lower bound when it reached `beta`, else exact.
pub open spec fn table_flag(score: int, alpha: int, beta: int) -> u8 {
    if score <= alpha {
        ALPHA_FLAG
    } else if score >= beta {
        BETA_FLAG
    } else {
        EXACT_FLAG
    }
}

/// The table holds the result `r` of searching `b` to `depth` in the window
/// `[alpha, beta]` by a search of age `age`: its depth, age, bound and score, and the
/// move that raised `alpha` (a legal move of `b`), or none when no move did.
pub open spec fn stored_result(t: TranspositionTable, b: Board, depth: u8, age: u8, alpha: int, beta: int, r: int) -> bool {
    match t.lookup(b.position_key) {
        Some(d) => {
            &&& data_depth(d.0) == depth
            &&& data_age(d.0) == age
            &&& data_flag(d.0) == table_flag(r, alpha, beta)
            &&& data_score(d.0) == table_score(r, b.ply as int)
            &&& (r > alpha ==> pseudo_legal(b, false, Move(data_move(d.0))) && legal_move(b.pieces@, b.side, Move(data_move(d.0))))
            &&& (r <= alpha ==> data_move(d.0) == 0)
        },
        None => false,
    }
}

/// Two lists with the same entries, in whatever order, list the same moves.
proof fn lemma_listed_same_entries(a: Seq<ScoredMove>, b: Seq<ScoredMove>)
    requires
        a.to_multiset() == b.to_multiset(),
    ensures
        forall|mv: Move| #![trigger listed(a, mv)] #![trigger listed(b, mv)] listed(a, mv) == listed(b, mv),
{
    broadcast use vstd::seq_lib::group_to_multiset_ensures;
    assert forall|mv: Move| #![trigger listed(a, mv)] #![trigger listed(b, mv)] listed(a, mv) == listed(b, mv) by {
        if listed(a, mv) {
            let k = choose|k: int| 0 <= k < a.len() && #[trigger] a[k].mv == mv;
            assert(a.to_multiset().count(a[k]) > 0);
            assert(b.contains(a[k]));
            let j = choose|j: int| 0 <= j < b.len() && b[j] == a[k];
            assert(b[j].mv == mv);
        }
        if listed(b, mv) {
            let k = choose|k: int| 0 <= k < b.len() && #[trigger] b[k].mv == mv;
            assert(b.to_multiset().count(b[k]) > 0);
            assert(a.contains(b[k]));
            let j = choose|j: int| 0 <= j < a.len() && a[j] == b[k];
            assert(a[j].mv == mv);
        }
    }
}

/// A search that nothing stops: no time limit, no stop flag raised, no stop signal.
pub open spec fn unstoppable(s: Search) -> bool {
    &&& s.time_limit_ms == 0
    &&& !s.stop_flag
    &&& s.stop_signal is None
}

/// A search keeps its time control: the same limit and stop signal, and without a limit
/// a stop flag that was down stays down.
pub open spec fn keeps_control(after: Search, before: Search) -> bool {
    &&& after.time_limit_ms == before.time_limit_ms
    &&& after.stop_signal == before.stop_signal
    &&& (before.time_limit_ms == 0 && !before.stop_flag ==> !after.stop_flag)
}

/// `mv` is a move the generator produces in `pos` (with whatever score).
pub open spec fn move_of(pos: Board, mv: Move) -> bool {
    &&& exists|s: ScoredMove| s.mv == mv && generated(pos, s, false)
    &&& pseudo_legal(pos, false, mv)
}

/// The side to move has no pseudo-legal capture.
#[verifier::opaque]
pub open spec fn no_captures(pos: Board) -> bool {
    forall|m: Move| !#[trigger] pseudo_legal(pos, true, m)
}

/// No pseudo-legal move of the side to move is legal: the side is mated or stalemated.
pub open spec fn no_legal_move(pos: Board) -> bool {
    forall|mv: Move| #[trigger] pseudo_legal(pos, false, mv) ==> !legal_move(pos.pieces@, pos.side, mv)
}

/// The position counts as drawn at the first ply: a repetition within the fifty-move
/// window or fifty moves without capture or pawn move.
pub open spec fn draw_at_first_ply(b: Board) -> bool {
    &&& b.ply == 1
    &&& (b.fifty_move >= 100 || (b.history_ply > 1 && exists|i: int|
        b.history_ply - b.fifty_move <= i < b.history_ply - 1 && #[trigger] b.history@[i].position_key == b.position_key))
}

/// The transposition table ends the search of this node: it holds an entry for the
/// position at least as deep, exact or, by its bound, outside the window.
pub open spec fn tt_cutoff(table: TranspositionTable, b: Board, alpha: i32, beta: i32, depth: u8) -> bool {
    match table.lookup(b.position_key) {
        Some(d) => {
            let raw = data_score(d.0) as int;
            let score = if raw >= MATE_THRESHOLD {
                raw - b.ply
            } else if raw <= -MATE_THRESHOLD {
                raw + b.ply
            } else {
                raw
            };
            let flag = data_flag(d.0);
            &&& data_depth(d.0) >= depth
            &&& (flag == EXACT_FLAG || (flag == ALPHA_FLAG && score <= alpha) || (flag == BETA_FLAG && score >= beta))
        },
        None => false,
    }
}

/// The score the table's entry for `b` gives, its mate scores counted from the root.
pub open spec fn tt_score(table: TranspositionTable, b: Board) -> int {
    match table.lookup(b.position_key) {
        Some(d) => {
            let raw = data_score(d.0) as int;
            if raw >= MATE_THRESHOLD {
                raw - b.ply
            } else if raw <= -MATE_THRESHOLD {
                raw + b.ply
            } else {
                raw
            }
        },
        None => 0,
    }
}

/// Alpha-beta's state after the first `k` moves of `moves`, the legal ones having scored
/// `vals`: whether one reached `beta`, the raised `alpha`, the best score, whether a legal
/// move was found, the move that last raised `alpha`, and the index of the last legal
/// move scored.
pub open spec fn ab_run(b: Board, moves: Seq<Move>, vals: Seq<int>, alpha0: int, beta: int, k: nat) -> (bool, int, int, bool, Move, int)
    decreases k,
{
    if k == 0 {
        (false, alpha0, -MATE_SCORE as int, false, Move(0), 0)
    } else {
        let p = ab_run(b, moves, vals, alpha0, beta, (k - 1) as nat);
        let m = moves[k - 1];
        if p.0 || !legal_move(b.pieces@, b.side, m) {
            p
        } else {
            let v = vals[k - 1];
            let best = if v > p.2 { v } else { p.2 };
            let alpha = if v > p.1 { v } else { p.1 };
            let bm = if v > p.1 { m } else { p.4 };
            (beta <= alpha, alpha, best, true, bm, k - 1)
        }
    }
}

/// `t2` is `t` after `store(key, d)`: the slot of `key` rewritten when `d` replaces
/// what it holds, unchanged otherwise.
pub open spec fn table_after_store(t: TranspositionTable, t2: TranspositionTable, key: u64, d: TranspositionData) -> bool {
    let i = slot_of(key, t.spec_mask());
    &&& t2.spec_mask() == t.spec_mask()
    &&& if replaces(t.slots()[i], key, d) {
        t2.slots() == t.slots().update(i, crate::transposition_table::TranspositionEntry { encoded_key: key ^ d.0, data: d.0 })
    } else {
        t2.slots() == t.slots()
    }
}

/// What a search reads and updates besides the position: the transposition table, the
/// killer moves and the history scores.
pub struct Tables {
    pub table: TranspositionTable,
    pub killers: [[Option<Move>; 2]; 64],
    pub history: [[i16; 64]; 32],
}

/// The tables a search of `b` starts from, with the transposition table `t`.
pub open spec fn tables_of(b: Board, t: TranspositionTable) -> Tables {
    Tables { table: t, killers: b.killers, history: b.history_heuristic }
}

/// The move code the table holds for `key`, 0 when it holds no entry.
pub open spec fn table_move_code(t: TranspositionTable, key: u64) -> u32 {
    match t.lookup(key) {
        Some(d) => data_move(d.0),
        None => 0,
    }
}

/// The score by which the search orders `mv` in `b`: 30000 for the move whose code the
/// table holds, the generator's score otherwise.
pub open spec fn order_score(b: Board, code: u32, mv: Move) -> int {
    if mv.0 == code {
        30000
    } else {
        move_score(b, mv)
    }
}

/// `moves` come in descending order of `order_score`, the table's move for `b` in `t`
/// raised to 30000.
#[verifier::opaque]
pub open spec fn in_search_order(b: Board, t: TranspositionTable, moves: Seq<Move>) -> bool {
    let code = table_move_code(t, b.position_key);
    forall|i: int, j: int| 0 <= i < j < moves.len() ==>
        #[trigger] order_score(b, code, moves[i]) >= #[trigger] order_score(b, code, moves[j])
}

/// The history bonus of a node searched `depth` plies deep: the square of the depth,
/// wrapped to a byte.
pub open spec fn history_bonus(depth: u8) -> int {
    (depth as int * depth as int) % 256
}

/// A history score after `bonus` is added: wrapped to 16 bits, then capped at 8999.
pub open spec fn history_step(v: int, bonus: int) -> int {
    let sum = v + bonus;
    let wrapped = if sum > 32767 {
        sum - 65536
    } else if sum < -32768 {
        sum + 65536
    } else {
        sum
    };
    if wrapped < 8999 {
        wrapped
    } else {
        8999
    }
}

/// Whether `mv`, made by the piece on its origin in `pieces`, has the history entry `(p, t)`.
pub open spec fn history_slot(pieces: Seq<Piece>, mv: Move, p: int, t: int) -> bool {
    pieces[mv.from_sq() as int].idx() as int == p && mv.to_sq() as int == t
}

/// The history entry `(p, t)` after the move `moves[cut]` cut the search off: that move's
/// entry gains the bonus, then each of the first `n` moves that is quiet loses it.
pub open spec fn history_at(h: [[i16; 64]; 32], pieces: Seq<Piece>, moves: Seq<Move>, cut: int, n: nat, depth: u8,
    p: int, t: int) -> int
    decreases n,
{
    if n == 0 {
        if history_slot(pieces, moves[cut], p, t) {
            history_step(h[p][t] as int, history_bonus(depth))
        } else {
            h[p][t] as int
        }
    } else {
        let v = history_at(h, pieces, moves, cut, (n - 1) as nat, depth, p, t);
        let m = moves[n - 1];
        if m.captured_idx() == 0 && history_slot(pieces, m, p, t) {
            history_step(v, -history_bonus(depth))
        } else {
            v
        }
    }
}

/// The killer moves after `mv` cut the search off at `ply`: it becomes the first killer of
/// that ply and the first one moves to the second slot, unless it already is the first.
pub open spec fn killers_after(k: [[Option<Move>; 2]; 64], ply: int, mv: Move) -> Seq<[Option<Move>; 2]> {
    if ply < MAX_DEPTH && k[ply][0] != Some(mv) {
        k@.update(ply, [Some(mv), k[ply][0]])
    } else {
        k@
    }
}

/// The killer and history tables after the quiet move `moves[cut]` cut the search of `b`
/// off, `depth` plies deep: it is stored as a killer move, its history entry gains the
/// bonus and each quiet move tried before it loses the bonus.
pub open spec fn cut_tables(b: Board, s: Tables, s2: Tables, moves: Seq<Move>, cut: int, depth: u8) -> bool {
    &&& s2.killers@ == killers_after(s.killers, b.ply as int, moves[cut])
    &&& forall|p: int, t: int| 0 <= p < 32 && 0 <= t < 64 ==>
        #[trigger] s2.history[p][t] as int == history_at(s.history, b.pieces@, moves, cut, cut as nat, depth, p, t)
}

/// The tables after a search of `b` in which some move was legal, the tables being `s`
/// once every move was tried: the result is stored with depth, age, bound and score and
/// the move that last raised alpha; a quiet move that reached `beta` updates the killer
/// and history tables, which stay as they were otherwise.
pub open spec fn ab_stored(b: Board, s: Tables, s2: Tables, moves: Seq<Move>, fin: (bool, int, int, bool, Move, int),
    depth: nat, alpha: int, beta: int, age: u8) -> bool {
    &&& exists|d: TranspositionData| {
        &&& data_move(d.0) == fin.4.0
        &&& data_depth(d.0) == (depth as u8) & 0x3F
        &&& data_age(d.0) == age
        &&& data_flag(d.0) == (if fin.1 <= alpha { ALPHA_FLAG } else if beta <= fin.1 { BETA_FLAG } else { EXACT_FLAG })
        &&& data_score(d.0) == table_score(fin.2, b.ply as int)
        &&& #[trigger] table_after_store(s.table, s2.table, b.position_key, d)
    }
    &&& if fin.0 && moves[fin.5].captured_idx() == 0 {
        cut_tables(b, s, s2, moves, fin.5, depth as u8)
    } else {
        s2.killers == s.killers && s2.history == s.history
    }
}

/// `r` is the alpha-beta score of `b` searched `depth` plies deep in the window
/// `[alpha, beta]` by a search of age `age` that is never stopped, starting from the
/// transposition table `t` and the killer and history tables of `b`, and leaving the
/// tables `s2`: the quiescence score at depth 0; 0 for a draw at the first ply; the
/// table's score when its entry cuts the search; 0 without a king of the side to move;
/// otherwise each pseudo-legal move is tried once, in descending order of the
/// generator's score with the table's move raised to 30000, each legal one scored by the
/// negated score of the position it leads to in the window `[-beta, -alpha]` (alpha
/// raised as scores come in, the tables passed on from move to move) until one reaches
/// `beta`; with no legal move the mate or stalemate score, else the best score, which
/// is stored in the table with the move that last raised alpha.
pub open spec fn ab_value(b: Board, t: TranspositionTable, depth: nat, alpha: int, beta: int, age: u8, r: int, s2: Tables) -> bool
    decreases depth,
{
    if depth == 0 {
        s2 == tables_of(b, t) && q_value(b, piece_count(b.pieces@), alpha, beta, r)
    } else if draw_at_first_ply(b) {
        s2 == tables_of(b, t) && r == 0
    } else if tt_cutoff(t, b, alpha as i32, beta as i32, depth as u8) {
        s2 == tables_of(b, t) && r == tt_score(t, b)
    } else if !side_has_king(b.pieces@, b.side) {
        s2 == tables_of(b, t) && r == 0
    } else {
        exists|moves: Seq<Move>, vals: Seq<int>, ss: Seq<Tables>|
            #![trigger ab_run(b, moves, vals, alpha, beta, moves.len() as nat), ss[moves.len() as int]]
        {
            &&& moves.len() == vals.len()
            &&& ss.len() == moves.len() + 1
            &&& ss[0] == tables_of(b, t)
            &&& moves.no_duplicates()
            &&& forall|m: Move| #[trigger] moves.contains(m) == pseudo_legal(b, false, m)
            &&& in_search_order(b, t, moves)
            &&& forall|k: int| 0 <= k < moves.len() ==> {
                let st = #[trigger] ab_run(b, moves, vals, alpha, beta, k as nat);
                if st.0 || !legal_move(b.pieces@, b.side, moves[k]) {
                    ss[k + 1] == ss[k]
                } else {
                    exists|c: Board| {
                        &&& crate::perft::leads_to(b, moves[k], c)
                        &&& c.ply == b.ply + 1
                        &&& c.killers == ss[k].killers
                        &&& c.history_heuristic == ss[k].history
                        &&& ab_value(c, ss[k].table, (depth - 1) as nat, -beta, -st.1, age, -vals[k], ss[k + 1])
                    }
                }
            }
            &&& ({
                let fin = ab_run(b, moves, vals, alpha, beta, moves.len() as nat);
                if !fin.3 {
                    &&& s2 == ss[moves.len() as int]
                    &&& r == (if in_check(b.pieces@, b.side) { -MATE_SCORE + b.ply } else { 0 })
                } else {
                    &&& r == fin.2
                    &&& ab_stored(b, ss[moves.len() as int], s2, moves, fin, depth, alpha, beta, age)
                }
            })
        }
    }
}

/// Move `k` of `moves` was passed over (illegal, or after a move reached `beta`) and left
/// the tables as they were, or was scored `vals[k]`: the negated alpha-beta score of the
/// position it leads to, in the window of that moment, from tables `ss[k]` to `ss[k + 1]`.
pub open spec fn ab_child_ok(b: Board, moves: Seq<Move>, vals: Seq<int>, ss: Seq<Tables>, alpha: int, beta: int,
    depth: nat, age: u8, k: int) -> bool {
    let st = ab_run(b, moves, vals, alpha, beta, k as nat);
    if st.0 || !legal_move(b.pieces@, b.side, moves[k]) {
        ss[k + 1] == ss[k]
    } else {
        exists|c: Board| {
            &&& crate::perft::leads_to(b, moves[k], c)
            &&& c.ply == b.ply + 1
            &&& c.killers == ss[k].killers
            &&& c.history_heuristic == ss[k].history
            &&& ab_value(c, ss[k].table, (depth - 1) as nat, -beta, -st.1, age, -vals[k], ss[k + 1])
        }
    }
}

/// The state after `k` moves depends on the first `k` scores alone.
proof fn lemma_ab_run_prefix(b: Board, moves: Seq<Move>, vals: Seq<int>, vals2: Seq<int>, alpha: int, beta: int, k: nat)
    requires
        k <= vals.len(),
        k <= vals2.len(),
        forall|i: int| 0 <= i < k ==> vals[i] == vals2[i],
    ensures
        ab_run(b, moves, vals, alpha, beta, k) == ab_run(b, moves, vals2, alpha, beta, k),
    decreases k,
{
    if k > 0 {
        lemma_ab_run_prefix(b, moves, vals, vals2, alpha, beta, (k - 1) as nat);
    }
}

/// Once a move has reached `beta`, the state stays.
proof fn lemma_ab_run_done(b: Board, moves: Seq<Move>, vals: Seq<int>, alpha: int, beta: int, k: nat, k2: nat)
    requires
        k <= k2,
        ab_run(b, moves, vals, alpha, beta, k).0,
    ensures
        ab_run(b, moves, vals, alpha, beta, k2) == ab_run(b, moves, vals, alpha, beta, k),
    decreases k2,
{
    if k2 > k {
        lemma_ab_run_done(b, moves, vals, alpha, beta, k, (k2 - 1) as nat);
    }
}

/// Adding the next move's score and tables keeps the earlier steps as they were.
proof fn lemma_ab_extend(b: Board, moves: Seq<Move>, vals: Seq<int>, ss: Seq<Tables>, v: int, s_next: Tables,
    alpha: int, beta: int, depth: nat, age: u8)
    requires
        vals.len() < moves.len(),
        ss.len() == vals.len() + 1,
        forall|j: int| 0 <= j < vals.len() ==> #[trigger] ab_child_ok(b, moves, vals, ss, alpha, beta, depth, age, j),
        ({
            let k = vals.len() as int;
            let st = ab_run(b, moves, vals, alpha, beta, k as nat);
            if st.0 || !legal_move(b.pieces@, b.side, moves[k]) {
                s_next == ss[k]
            } else {
                exists|c: Board| {
                    &&& crate::perft::leads_to(b, moves[k], c)
                    &&& c.ply == b.ply + 1
                    &&& c.killers == ss[k].killers
                    &&& c.history_heuristic == ss[k].history
                    &&& ab_value(c, ss[k].table, (depth - 1) as nat, -beta, -st.1, age, -v, s_next)
                }
            }
        }),
    ensures
        forall|j: int| 0 <= j < vals.len() + 1 ==> #[trigger] ab_child_ok(b, moves, vals.push(v), ss.push(s_next), alpha, beta, depth, age, j),
        ab_run(b, moves, vals.push(v), alpha, beta, vals.len() as nat) == ab_run(b, moves, vals, alpha, beta, vals.len() as nat),
{
    let w = vals.push(v);
    let ws = ss.push(s_next);
    lemma_ab_run_prefix(b, moves, vals, w, alpha, beta, vals.len() as nat);
    assert forall|j: int| 0 <= j < vals.len() + 1 implies #[trigger] ab_child_ok(b, moves, w, ws, alpha, beta, depth, age, j) by {
        lemma_ab_run_prefix(b, moves, vals, w, alpha, beta, j as nat);
        if j < vals.len() {
            assert(ab_child_ok(b, moves, vals, ss, alpha, beta, depth, age, j));
            assert(w[j] == vals[j]);
            assert(ws[j] == ss[j]);
            assert(ws[j + 1] == ss[j + 1]);
        } else {
            assert(w[j] == v);
            assert(ws[j] == ss[j]);
            assert(ws[j + 1] == s_next);
        }
    }
}

/// A complete run over the moves gives the alpha-beta score.
#[verifier::spinoff_prover]
#[verifier::rlimit(30)]
proof fn lemma_ab_conclude(b: Board, t: TranspositionTable, s2: Tables, moves: Seq<Move>, vals: Seq<int>,
    ss: Seq<Tables>, alpha: int, beta: int, depth: nat, age: u8, r: int)
    requires
        depth > 0,
        !draw_at_first_ply(b),
        !tt_cutoff(t, b, alpha as i32, beta as i32, depth as u8),
        search_moves(b, t, moves),
        moves.len() == vals.len(),
        ss.len() == moves.len() + 1,
        ss[0] == tables_of(b, t),
        forall|k: int| 0 <= k < moves.len() ==> #[trigger] ab_child_ok(b, moves, vals, ss, alpha, beta, depth, age, k),
        ({
            let fin = ab_run(b, moves, vals, alpha, beta, moves.len() as nat);
            if !fin.3 {
                &&& s2 == ss[moves.len() as int]
                &&& r == (if in_check(b.pieces@, b.side) { -MATE_SCORE + b.ply } else { 0 })
            } else {
                &&& r == fin.2
                &&& ab_stored(b, ss[moves.len() as int], s2, moves, fin, depth, alpha, beta, age)
            }
        }),
    ensures
        ab_value(b, t, depth, alpha, beta, age, r, s2),
{
    assert forall|k: int| 0 <= k < moves.len() implies {
        let st = #[trigger] ab_run(b, moves, vals, alpha, beta, k as nat);
        if st.0 || !legal_move(b.pieces@, b.side, moves[k]) {
            ss[k + 1] == ss[k]
        } else {
            exists|c: Board| {
                &&& crate::perft::leads_to(b, moves[k], c)
                &&& c.ply == b.ply + 1
                &&& c.killers == ss[k].killers
                &&& c.history_heuristic == ss[k].history
                &&& ab_value(c, ss[k].table, (depth - 1) as nat, -beta, -st.1, age, -vals[k], ss[k + 1])
            }
        }
    } by {
        assert(ab_child_ok(b, moves, vals, ss, alpha, beta, depth, age, k));
    }
    assert(side_has_king(b.pieces@, b.side));
    assert(moves.no_duplicates());
    assert(forall|m: Move| #[trigger] moves.contains(m) == pseudo_legal(b, false, m));
    assert(in_search_order(b, t, moves));
    assert(exists|moves2: Seq<Move>, vals2: Seq<int>, ss2: Seq<Tables>|
        #![trigger ab_run(b, moves2, vals2, alpha, beta, moves2.len() as nat), ss2[moves2.len() as int]]
    {
        &&& moves2.len() == vals2.len()
        &&& ss2.len() == moves2.len() + 1
        &&& ss2[0] == tables_of(b, t)
        &&& moves2.no_duplicates()
        &&& forall|m: Move| #[trigger] moves2.contains(m) == pseudo_legal(b, false, m)
        &&& in_search_order(b, t, moves2)
        &&& forall|k: int| 0 <= k < moves2.len() ==> {
            let st = #[trigger] ab_run(b, moves2, vals2, alpha, beta, k as nat);
            if st.0 || !legal_move(b.pieces@, b.side, moves2[k]) {
                ss2[k + 1] == ss2[k]
            } else {
                exists|c: Board| {
                    &&& crate::perft::leads_to(b, moves2[k], c)
                    &&& c.ply == b.ply + 1
                    &&& c.killers == ss2[k].killers
                    &&& c.history_heuristic == ss2[k].history
                    &&& ab_value(c, ss2[k].table, (depth - 1) as nat, -beta, -st.1, age, -vals2[k], ss2[k + 1])
                }
            }
        }
        &&& ({
            let fin = ab_run(b, moves2, vals2, alpha, beta, moves2.len() as nat);
            if !fin.3 {
                &&& s2 == ss2[moves2.len() as int]
                &&& r == (if in_check(b.pieces@, b.side) { -MATE_SCORE + b.ply } else { 0 })
            } else {
                &&& r == fin.2
                &&& ab_stored(b, ss2[moves2.len() as int], s2, moves2, fin, depth, alpha, beta, age)
            }
        })
    });
}

/// The moves of a search of `b` with table `t`: each pseudo-legal move once, in search
/// order, with the side to move's king on the board.
pub open spec fn search_moves(b: Board, t: TranspositionTable, moves: Seq<Move>) -> bool {
    &&& side_has_king(b.pieces@, b.side)
    &&& moves.no_duplicates()
    &&& forall|m: Move| #[trigger] moves.contains(m) == pseudo_legal(b, false, m)
    &&& in_search_order(b, t, moves)
}
pub open spec fn all_generated_moves(pos: Board, moves: Seq<ScoredMove>) -> bool {
    forall|k: int| 0 <= k < moves.len() ==> #[trigger] move_of(pos, moves[k].mv)
}

/// A bound on the depth of a table's entries holds for every larger depth.
proof fn lemma_depth_bounded_mono(t: TranspositionTable, d1: int, d2: int)
    requires
        depth_bounded(t, d1),
        d1 <= d2,
    ensures
        depth_bounded(t, d2),
{
}

/// A table whose entries are all shallower than `depth` cuts no search to `depth` short.
proof fn lemma_no_cutoff_when_shallow(t: TranspositionTable, b: Board, alpha: i32, beta: i32, depth: u8)
    requires
        t.wf(),
        depth_bounded(t, depth - 1),
    ensures
        !tt_cutoff(t, b, alpha, beta, depth),
{
    t.lemma_shape();
    let slot = slot_of(b.position_key, t.spec_mask());
    assert(data_depth(t.slots()[slot].data) <= depth - 1);
}

/// A board of a search holds the position the search started from: it has the same
/// moves, is drawn at the first ply alike, and finds the same results in the table.
proof fn lemma_same_search_position(b: Board, start: Board, t: TranspositionTable, depth: u8, age: u8, alpha: int, beta: int, r: int)
    requires
        b.wf(),
        start.wf(),
        b.same_search(&start),
    ensures
        no_legal_move(b) == no_legal_move(start),
        draw_at_first_ply(b) == draw_at_first_ply(start),
        stored_result(t, b, depth, age, alpha, beta, r) == stored_result(t, start, depth, age, alpha, beta, r),
{
    assert forall|mv: Move| #[trigger] pseudo_legal(b, false, mv) == pseudo_legal(start, false, mv) by {
        crate::movegen::generate::lemma_pseudo_legal_same_position(b, start, false, mv);
    }
    if no_legal_move(start) {
        assert forall|mv: Move| #[trigger] pseudo_legal(b, false, mv) implies !legal_move(b.pieces@, b.side, mv) by {
            assert(pseudo_legal(start, false, mv));
        }
    }
    if no_legal_move(b) {
        assert forall|mv: Move| #[trigger] pseudo_legal(start, false, mv) implies !legal_move(start.pieces@, start.side, mv) by {
            assert(pseudo_legal(b, false, mv));
        }
    }
    if draw_at_first_ply(b) && b.fifty_move < 100 {
        let i = choose|i: int| b.history_ply - b.fifty_move <= i < b.history_ply - 1 && #[trigger] b.history@[i].position_key == b.position_key;
        assert(start.history@[i].position_key == start.position_key);
    }
    if draw_at_first_ply(start) && start.fifty_move < 100 {
        let i = choose|i: int| start.history_ply - start.fifty_move <= i < start.history_ply - 1 && #[trigger] start.history@[i].position_key == start.position_key;
        assert(b.history@[i].position_key == b.position_key);
    }
}

impl Board {
    /// Halves every history score, rounding down.
    fn age_history(&mut self)
        requires
            old(self).wf(),
        ensures
            final(self).wf(),
            final(self).same_search(old(self)),
            forall|p: int, t: int| 0 <= p < 32 && 0 <= t < 64 ==> #[trigger] final(self).history_heuristic[p][t] == old(self).history_heuristic[p][t] >> 1,
    {
        let ghost before = *self;
        let mut p: usize = 0;
        while p < 32
            invariant
                p <= 32,
                before.wf(),
                self.wf(),
                self.same_search(&before),
                forall|q: int, t: int| 0 <= q < p && 0 <= t < 64 ==> #[trigger] self.history_heuristic[q][t] == before.history_heuristic[q][t] >> 1,
                forall|q: int, t: int| p <= q < 32 && 0 <= t < 64 ==> #[trigger] self.history_heuristic[q][t] == before.history_heuristic[q][t],
            decreases 32 - p,
        {
            let mut row = self.history_heuristic[p];
            let mut t: usize = 0;
            while t < 64
                invariant
                    t <= 64,
                    p < 32,
                    forall|u: int| 0 <= u < t ==> #[trigger] row[u] == before.history_heuristic[p as int][u] >> 1,
                    forall|u: int| t <= u < 64 ==> #[trigger] row[u] == before.history_heuristic[p as int][u],
                decreases 64 - t,
            {
                row[t] = row[t] >> 1;
                t += 1;
            }
            let ghost b = *self;
            self.history_heuristic[p] = row;
            proof {
                lemma_bb_ok_frame(&b, self);
                assert forall|i: int| 0 <= i < self.history_ply implies #[trigger] self.record_ok(i) by {
                    assert(b.record_ok(i));
                }
            }
            p += 1;
        }
    }

    /// Iterative deepening: searches to depth 1, 2, ... `depth` (halving the history
    /// scores before each iteration), stopping early once the time limit has passed, and
    /// returns the move the transposition table holds for the root after the last
    /// completed iteration, if any. With `yes_print`, each completed iteration that has
    /// a move is reported in `search.reports`. The position is left as it was, but for
    /// the killer and history tables.
    pub fn iterative_deepen(&mut self, search: &mut Search, depth: u8, yes_print: bool) -> (best: Option<Move>)
        requires
            old(self).wf(),
            ready(old(self)),
            old(search).wf(),
            room(old(self), depth as int + 64),
        ensures
            final(self).wf(),
            final(self).same_search(old(self)),
            final(search).wf(),
            best matches Some(m) ==> m.0 != 0,
            old(search).time_limit_ms == 0 && old(search).stop_signal is None && depth >= 1
                && table_move(final(search).transposition_table, old(self).position_key) is Some
                ==> best == table_move(final(search).transposition_table, old(self).position_key),
            depth == 0 ==> best is None,
            old(search).time_limit_ms == 0 && old(search).stop_signal is None && depth == 1
                ==> best == table_move(final(search).transposition_table, old(self).position_key),
            ({
                &&& old(search).time_limit_ms == 0
                &&& old(search).stop_signal is None
                &&& 1 <= depth < 64
                &&& !draw_at_first_ply(*old(self))
                &&& side_has_king(old(self).pieces@, old(self).side)
                &&& !no_legal_move(*old(self))
                &&& depth_bounded(old(search).transposition_table, depth - 1)
            }) ==> exists|r: int| #[trigger] stored_result(final(search).transposition_table, *old(self), depth, final(search).age,
                -MATE_SCORE as int, MATE_SCORE as int, r),
    {
        let ghost start = *self;
        search.age = search.age.wrapping_add(1);
        search.stop_flag = false;
        let ghost control = *search;
        let ghost cond = {
            &&& control.time_limit_ms == 0
            &&& control.stop_signal is None
            &&& 1 <= depth < 64
            &&& !draw_at_first_ply(start)
            &&& side_has_king(start.pieces@, start.side)
            &&& !no_legal_move(start)
            &&& depth_bounded(control.transposition_table, depth - 1)
        };

        let root_key = self.position_key;
        let mut best_move: Option<Move> = None;

        let mut current_depth: u16 = 1;
        while current_depth <= depth as u16
            invariant
                1 <= current_depth,
                self.wf(),
                ready(self),
                self.same_search(&start),
                start == *old(self),
                start.wf(),
                room(&start, depth as int + 64),
                search.wf(),
                root_key == start.position_key,
                best_move matches Some(m) ==> m.0 != 0,
                keeps_control(*search, control),
                !control.stop_flag,
                control.time_limit_ms == old(search).time_limit_ms,
                control.stop_signal == old(search).stop_signal,
                current_depth > 1 && control.time_limit_ms == 0 && control.stop_signal is None
                    && table_move(search.transposition_table, root_key) is Some
                    ==> best_move == table_move(search.transposition_table, root_key),
                search.age == control.age,
                current_depth <= depth as u16 + 1,
                current_depth == 1 ==> best_move is None,
                current_depth == 2 && control.time_limit_ms == 0 && control.stop_signal is None
                    ==> best_move == table_move(search.transposition_table, root_key),
                cond == ({
                    &&& control.time_limit_ms == 0
                    &&& control.stop_signal is None
                    &&& 1 <= depth < 64
                    &&& !draw_at_first_ply(start)
                    &&& side_has_king(start.pieces@, start.side)
                    &&& !no_legal_move(start)
                    &&& depth_bounded(control.transposition_table, depth - 1)
                }),
                cond && current_depth <= depth ==> depth_bounded(search.transposition_table, depth - 1),
                cond && current_depth > depth ==> exists|r: int| #[trigger] stored_result(search.transposition_table, start, depth, control.age,
                    -MATE_SCORE as int, MATE_SCORE as int, r),
            ensures
                control.time_limit_ms == 0 && control.stop_signal is None && depth >= 1 ==> current_depth > 1,
                cond ==> current_depth > depth,
            decreases depth as int + 1 - current_depth,
        {
            let ghost b0 = *self;
            self.age_history();
            proof {
                lemma_same_search_trans(self, &b0, &start);
            }
            let ghost b1 = *self;
            let ghost t1 = search.transposition_table;
            proof {
                if cond {
                    lemma_same_search_position(b1, start, t1, depth, control.age, -MATE_SCORE as int, MATE_SCORE as int, 0);
                    lemma_depth_bounded_mono(t1, depth - 1, depth as int);
                    if current_depth == depth as u16 {
                        lemma_no_cutoff_when_shallow(t1, b1, -30000i32, 30000i32, depth);
                    }
                }
            }
            let evaluation = self.alpha_beta(search, -30000, 30000, current_depth as u8, false);
            proof {
                lemma_same_search_trans(self, &b1, &start);
                if cond {
                    if current_depth < depth as u16 {
                        assert(depth_bounded(search.transposition_table, depth - 1));
                    } else {
                        lemma_same_search_position(b1, start, search.transposition_table, depth, control.age,
                            -MATE_SCORE as int, MATE_SCORE as int, evaluation as int);
                        assert(stored_result(search.transposition_table, start, depth, control.age,
                            -MATE_SCORE as int, MATE_SCORE as int, evaluation as int));
                    }
                }
            }

            if search.stopped() {
                break;
            }

            if let Some(transposition_data) = search.transposition_table.probe(root_key) {
                let mv = transposition_data.get_move();
                if mv.0 != 0 {
                    best_move = Some(mv);
                }
            }

            if best_move.is_some() && yes_print {
                let ghost b2 = *self;
                let pv = self.get_pv_line(search, current_depth as u8);
                proof {
                    lemma_same_search_trans(self, &b2, &start);
                }
                let time_ms = clock_elapsed_ms(&search.start_time);
                search.reports.push(IterationReport {
                    depth: current_depth as u8,
                    score: evaluation,
                    nodes: search.nodes_visited,
                    time_ms,
                    pv,
                });
            }
            current_depth += 1;
        }
        best_move
    }
}

} // verus!
