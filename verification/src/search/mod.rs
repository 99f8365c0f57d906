//! Searching for the best move: the search state, repetition detection, the history
//! heuristic and the principal variation.
pub mod evaluate;
pub mod search;

use vstd::prelude::*;
use crate::board::{Board, MAX_GAME_MOVES};
use crate::defs::{Color, Piece, PieceType};
use crate::makemove::{move_fits, move_shaped, side_has_king, lemma_bb_ok_frame};
use crate::movegen::{Move, lemma_move_squares};
use crate::movegen::generate::ready;
use crate::perft::lemma_play_and_take_back;
use crate::transposition_table::TranspositionTable;
use crate::search::search::table_move;

verus! {

#[verifier::external_type_specification]
#[verifier::external_body]
pub struct ExInstant(std::time::Instant);

/// `std::time::Instant::now`: the current moment of the system's monotonic clock.
/// Nothing is claimed about it.
#[verifier::external_body]
fn clock_now() -> std::time::Instant {
    std::time::Instant::now()
}

/// `std::time::Instant::elapsed`: the time since `start` by the monotonic clock.
/// It depends on the clock, so nothing is claimed about it.
#[verifier::external_body]
fn clock_elapsed(start: &std::time::Instant) -> std::time::Duration {
    start.elapsed()
}

/// `std::time::Duration::as_millis`: the whole milliseconds in `d`. Nothing is claimed
/// about it, as nothing is known of `d`.
#[verifier::external_body]
fn whole_millis(d: &std::time::Duration) -> u128 {
    d.as_millis()
}

/// The whole milliseconds the clock has run since `start`.
pub(crate) fn clock_elapsed_ms(start: &std::time::Instant) -> u128 {
    let d = clock_elapsed(start);
    whole_millis(&d)
}

/// Whether a search that has run `elapsed_ms` milliseconds has used up a limit of
/// `limit_ms`.
pub fn time_is_up(elapsed_ms: u128, limit_ms: u128) -> (r: bool)
    ensures
        r == (elapsed_ms >= limit_ms),
{
    elapsed_ms >= limit_ms
}

/// The state shared by the nodes of a search: the transposition table, the node count,
/// the table age of this search, and the time control.
pub struct Search {
    pub transposition_table: TranspositionTable,
    pub nodes_visited: usize,
    pub age: u8,
    pub stop_flag: bool,
    pub start_time: std::time::Instant,
    pub time_limit_ms: u128,
    /// A flag another thread may raise to stop the search; none for a search that only
    /// its time limit stops.
    pub stop_signal: Option<std::sync::Arc<std::sync::atomic::AtomicBool>>,
    /// One entry per completed iteration of `iterative_deepen` when asked to report.
    pub reports: Vec<IterationReport>,
}

/// What one completed iteration of iterative deepening found.
pub struct IterationReport {
    pub depth: u8,
    pub score: i32,
    pub nodes: usize,
    pub time_ms: u128,
    pub pv: Vec<Move>,
}

impl Search {
    pub open spec fn wf(&self) -> bool {
        self.transposition_table.wf()
    }

    /// A search over `transposition_table`, stopping after `time_limit_ms`
    /// milliseconds (never, for 0); the clock starts now.
    pub fn new(transposition_table: TranspositionTable, time_limit_ms: u128) -> (s: Self)
        ensures
            s.transposition_table == transposition_table,
            s.nodes_visited == 0,
            s.age == 0,
            !s.stop_flag,
            s.time_limit_ms == time_limit_ms,
            s.stop_signal is None,
            s.reports@.len() == 0,
    {
        Self {
            transposition_table,
            nodes_visited: 0,
            age: 0,
            stop_flag: false,
            start_time: clock_now(),
            time_limit_ms,
            stop_signal: None,
            reports: Vec::new(),
        }
    }

    /// Clears the node count.
    pub fn reset_stats(&mut self)
        ensures
            final(self).nodes_visited == 0,
            final(self).transposition_table == old(self).transposition_table,
            final(self).age == old(self).age,
            final(self).stop_flag == old(self).stop_flag,
            final(self).time_limit_ms == old(self).time_limit_ms,
            final(self).start_time == old(self).start_time,
            final(self).stop_signal == old(self).stop_signal,
            final(self).reports@ == old(self).reports@,
    {
        self.nodes_visited = 0;
    }

    /// Clears the node count and the table age.
    pub fn reset(&mut self)
        ensures
            final(self).nodes_visited == 0,
            final(self).age == 0,
            final(self).transposition_table == old(self).transposition_table,
            final(self).stop_flag == old(self).stop_flag,
            final(self).time_limit_ms == old(self).time_limit_ms,
            final(self).start_time == old(self).start_time,
            final(self).stop_signal == old(self).stop_signal,
            final(self).reports@ == old(self).reports@,
    {
        self.reset_stats();
        self.age = 0;
    }

    /// Whether the search must stop: never without a time limit; once stopped, always;
    /// otherwise when the milliseconds the clock has run since `start_time` reach the
    /// limit (`time_is_up`), which also raises the stop flag.
    pub fn should_stop(&mut self) -> (r: bool)
        ensures
            old(self).time_limit_ms == 0 ==> !r && *final(self) == *old(self),
            old(self).time_limit_ms != 0 && old(self).stop_flag ==> r && *final(self) == *old(self),
            old(self).time_limit_ms != 0 && !old(self).stop_flag ==> {
                &&& final(self).stop_flag == r
                &&& final(self).transposition_table == old(self).transposition_table
                &&& final(self).nodes_visited == old(self).nodes_visited
                &&& final(self).age == old(self).age
                &&& final(self).time_limit_ms == old(self).time_limit_ms
                &&& final(self).start_time == old(self).start_time
                &&& final(self).stop_signal == old(self).stop_signal
                &&& final(self).reports@ == old(self).reports@
            },
    {
        if self.time_limit_ms == 0 {
            return false;
        }
        if self.stop_flag {
            return true;
        }
        let elapsed = clock_elapsed_ms(&self.start_time);
        if time_is_up(elapsed, self.time_limit_ms) {
            self.stop_flag = true;
            return true;
        }
        false
    }
}

impl Search {
    /// Whether the search has been stopped: by its time limit, or by another thread
    /// through the stop signal. Without a signal, exactly when the stop flag is up.
    pub fn stopped(&self) -> (r: bool)
        ensures
            self.stop_signal is None ==> r == self.stop_flag,
            self.stop_flag ==> r,
    {
        if self.stop_flag {
            return true;
        }
        match &self.stop_signal {
            Some(signal) => signal.load(std::sync::atomic::Ordering::Relaxed),
            None => false,
        }
    }
}

/// The square of the rook a castle to `to` moves, and the square it goes to.
fn castle_rook_squares(to: usize) -> (r: (usize, usize))
    ensures
        r.0 == crate::makemove::rook_from(to as int),
        r.1 == crate::makemove::rook_to(to as int),
{
    if to == 2 {
        (0, 3)
    } else if to == 58 {
        (56, 59)
    } else if to == 6 {
        (7, 5)
    } else {
        (63, 61)
    }
}

impl Board {
    /// Whether an earlier position within the fifty-move window, not counting the one
    /// just before this, had the current position key.
    pub fn is_repetition(&self) -> (r: bool)
        requires
            self.misc_ok(),
        ensures
            r == (self.history_ply > 1 && exists|i: int|
                self.history_ply - self.fifty_move <= i < self.history_ply - 1
                    && #[trigger] self.history@[i].position_key == self.position_key),
    {
        if self.history_ply <= 1 {
            return false;
        }
        let mut i = self.history_ply - self.fifty_move as usize;
        while i < self.history_ply - 1
            invariant
                self.misc_ok(),
                self.history_ply > 1,
                self.history_ply - self.fifty_move <= i,
                forall|j: int| self.history_ply - self.fifty_move <= j < i ==> #[trigger] self.history@[j].position_key != self.position_key,
            decreases self.history_ply - i,
        {
            if self.position_key == self.history[i].position_key {
                return true;
            }
            i += 1;
        }
        false
    }

    /// Whether `mv` can be played here: it fits the position (see `move_fits`).
    pub fn can_play(&self, mv: Move) -> (r: bool)
        requires
            self.bb_ok(),
        ensures
            r == move_fits(self.pieces@, self.side, mv),
    {
        proof {
            lemma_move_squares(mv);
            crate::defs::lemma_piece_index_roundtrip(self.pieces@[mv.from_sq() as int]);
            crate::defs::lemma_piece_index_roundtrip(self.pieces@[mv.to_sq() as int]);
        }
        let side = self.side;
        if !(side == Color::WHITE || side == Color::BLACK) {
            return false;
        }
        let from = mv.from_square();
        let to = mv.to_square();
        let castle = mv.is_castling();
        let ep = mv.is_en_passant();
        let captured = mv.captured();
        let promoted = mv.promoted();
        if from == to || self.pieces[from] == Piece::NONE || self.pieces[from].color() != side {
            return false;
        }
        if castle && ep {
            return false;
        }
        if castle {
            if !(to == 2 || to == 6 || to == 58 || to == 62) {
                return false;
            }
            let king_from: usize = if to < 8 { 4 } else { 60 };
            let (rook_from, rook_to) = castle_rook_squares(to);
            if from != king_from || self.pieces[rook_from] == Piece::NONE || self.pieces[rook_to] != Piece::NONE
                || self.pieces[to] != Piece::NONE || captured != 0 {
                return false;
            }
        }
        if ep {
            if self.pieces[to] != Piece::NONE {
                return false;
            }
            let victim_ok = if side == Color::WHITE { to >= 8 } else { to + 8 < 64 };
            if !victim_ok {
                return false;
            }
            let victim = if side == Color::WHITE { to - 8 } else { to + 8 };
            let enemy_pawn = if side == Color::WHITE { Piece::BLACK_PAWN } else { Piece::WHITE_PAWN };
            if victim == from || self.pieces[victim] != enemy_pawn {
                return false;
            }
        } else if captured != 0 {
            if self.pieces[to] == Piece::NONE || self.pieces[to].index() != captured || self.pieces[to].color() == side {
                return false;
            }
        } else if self.pieces[to] != Piece::NONE {
            return false;
        }
        if promoted != 0 {
            let promote_piece = Piece::from_index(promoted);
            let own_pawn = if side == Color::WHITE { Piece::WHITE_PAWN } else { Piece::BLACK_PAWN };
            if promote_piece == Piece::NONE || promote_piece.piece_type() == PieceType::KING || self.pieces[from] != own_pawn {
                return false;
            }
        }
        if mv.is_double_push() {
            let fits = if side == Color::WHITE { from + 8 < 64 } else { from >= 8 };
            if !fits {
                return false;
            }
        }
        let king = self.bitboards[PieceType::KING.bb_index(side)];
        proof {
            reveal(Board::bb_ok);
            if king != 0 {
                crate::bits::lemma_lsb(king);
                let s = crate::bits::lsb(king);
                crate::defs::lemma_piece_index_roundtrip(self.pieces@[s]);
                assert(crate::board::king_of(self.pieces@[s], side.idx() as int));
            } else {
                crate::bits::lemma_zero_iff_no_bits(king);
                if side_has_king(self.pieces@, side) {
                    let s = choose|s: int| 0 <= s < 64 && #[trigger] crate::board::king_of(self.pieces@[s], side.idx() as int);
                    assert(crate::bits::bit(king, s));
                }
            }
        }
        king != 0
    }

    /// Adds the history bonus `depth * depth` (negated when the move did not cut off)
    /// to the moving piece's entry for the target square, capped at 8999; the square of
    /// the depth and the sum wrap as in a release build.
    pub fn update_history(&mut self, mv: Move, depth: u8, is_good: bool)
        requires
            old(self).wf(),
        ensures
            final(self).wf(),
            ({
                let p = old(self).pieces[mv.from_sq() as int].idx() as int;
                let t = mv.to_sq() as int;
                let square = (depth as int * depth as int) % 256;
                let bonus = if is_good { square } else { -square };
                let sum = old(self).history_heuristic[p][t] + bonus;
                let wrapped = if sum > 32767 { sum - 65536 } else if sum < -32768 { sum + 65536 } else { sum };
                forall|i: int, j: int| 0 <= i < 32 && 0 <= j < 64 ==> #[trigger] final(self).history_heuristic[i][j] == (if i == p && j == t {
                    if wrapped < 8999 { wrapped as i16 } else { 8999i16 }
                } else {
                    old(self).history_heuristic[i][j]
                })
            }),
            final(self).same_game_but_history_table(old(self)),
    {
        let ghost before = *self;
        let square = depth.wrapping_mul(depth) as i16;
        let bonus = if is_good { square } else { -square };
        let to = mv.to_square();
        let piece_index = self.pieces[mv.from_square()].index();
        let mut row = self.history_heuristic[piece_index];
        let sum = row[to].wrapping_add(bonus);
        let capped = if sum < 8999 { sum } else { 8999 };
        row[to] = capped;
        self.history_heuristic[piece_index] = row;
        proof {
            lemma_bb_ok_frame(&before, self);
            assert forall|i: int| 0 <= i < self.history_ply implies #[trigger] self.record_ok(i) by {
                assert(before.record_ok(i));
            }
        }
    }

    /// Everything but the history heuristic table is as in `before`.
    pub open spec fn same_game_but_history_table(&self, before: &Board) -> bool {
        &&& self.pieces@ == before.pieces@
        &&& self.bitboards == before.bitboards
        &&& self.occupancies == before.occupancies
        &&& self.side == before.side
        &&& self.en_passant == before.en_passant
        &&& self.castle_permission == before.castle_permission
        &&& self.fifty_move == before.fifty_move
        &&& self.history_ply == before.history_ply
        &&& self.ply == before.ply
        &&& self.position_key == before.position_key
        &&& self.king_square == before.king_square
        &&& self.history@ == before.history@
        &&& self.killers == before.killers
        &&& self.keys == before.keys
        &&& self.past == before.past
    }
}

/// Step `j` of a line played from `start`: the move is the one the table holds for the
/// position before it, was legal and was played from that position, which keeps the
/// game of the position after the previous step.
pub open spec fn line_step(t: TranspositionTable, start: Board, befores: Seq<Board>, mids: Seq<Board>, line: Seq<Move>, j: int) -> bool {
    &&& table_move(t, befores[j].position_key) == Some(line[j])
    &&& crate::makemove::legal_move(befores[j].pieces@, befores[j].side, line[j])
    &&& mids[j].played(&befores[j], line[j])
    &&& befores[j].wf()
    &&& mids[j].wf()
    &&& befores[j].same_game(&(if j == 0 { start } else { mids[j - 1] }))
}

/// The whole line played from `start`, step by step, through the positions `befores`
/// (before each move) and `mids` (after it), each move taken from the table.
pub open spec fn line_played(t: TranspositionTable, start: Board, befores: Seq<Board>, mids: Seq<Board>, line: Seq<Move>) -> bool {
    &&& befores.len() == line.len()
    &&& mids.len() == line.len()
    &&& forall|j: int| 0 <= j < line.len() ==> #[trigger] line_step(t, start, befores, mids, line, j)
}

/// No line goes on from `b`: the table holds no move for it, or one that does not fit
/// the position or is not legal there.
pub open spec fn line_ends(t: TranspositionTable, b: Board) -> bool {
    match table_move(t, b.position_key) {
        None => true,
        Some(m) => !move_fits(b.pieces@, b.side, m) || !crate::makemove::legal_move(b.pieces@, b.side, m),
    }
}

/// Keeping the game is transitive.
pub proof fn lemma_same_game_trans(a: &Board, b: &Board, c: &Board)
    requires
        a.same_game(b),
        b.same_game(c),
    ensures
        a.same_game(c),
{
    assert forall|k: int| 0 <= k < 2 && a.has_king(k) implies a.king_square[k] == c.king_square[k] by {
        let s = choose|s: int| 0 <= s < 64 && #[trigger] crate::board::king_of(a.pieces[s], k);
        assert(crate::board::king_of(b.pieces[s], k));
        assert(b.has_king(k));
    }
}

impl Board {
    /// The principal variation: from here, the moves the transposition table holds,
    /// each played in turn while it fits and is legal in the position reached, at most
    /// `depth` of them. The position is left as it was.
    pub fn get_pv_line(&mut self, search: &Search, depth: u8) -> (pv: Vec<Move>)
        requires
            old(self).wf(),
            ready(old(self)),
            search.wf(),
            old(self).history_ply + depth <= MAX_GAME_MOVES,
            old(self).ply + depth < 255,
            old(self).fifty_move + depth < 255,
        ensures
            final(self).wf(),
            final(self).same_game(old(self)),
            pv@.len() <= depth,
            exists|befores: Seq<Board>, mids: Seq<Board>| {
                &&& #[trigger] line_played(search.transposition_table, *old(self), befores, mids, pv@)
                &&& pv@.len() == depth
                    || line_ends(search.transposition_table, if pv@.len() == 0 { *old(self) } else { mids[pv@.len() - 1] })
            },
    {
        let ghost start = *self;
        let mut pv_moves: Vec<Move> = Vec::new();
        let mut moves_made: usize = 0;
        let ghost mut befores: Seq<Board> = Seq::empty();
        let ghost mut mids: Seq<Board> = Seq::empty();
        let ghost mut ended = false;
        let mut k: u8 = 0;
        while k < depth
            invariant
                moves_made == k,
                ended ==> line_ends(search.transposition_table, if moves_made == 0 { start } else { mids[moves_made - 1] }),
                start.wf(),
                start.history_ply + depth <= MAX_GAME_MOVES,
                start.ply + depth < 255,
                start.fifty_move + depth < 255,
                search.wf(),
                self.wf(),
                ready(self),
                moves_made <= k <= depth,
                pv_moves@.len() == moves_made,
                befores.len() == moves_made,
                mids.len() == moves_made,
                self.history_ply == start.history_ply + moves_made,
                self.ply == start.ply + moves_made,
                self.fifty_move <= start.fifty_move + moves_made,
                self.same_game(&(if moves_made == 0 { start } else { mids[moves_made - 1] })),
                forall|j: int| 0 <= j < moves_made ==> #[trigger] line_step(search.transposition_table, start, befores, mids, pv_moves@, j),
            ensures
                moves_made == depth || ended,
            decreases depth - k,
        {
            let found = search.transposition_table.probe(self.position_key);
            let ghost cur = if moves_made == 0 { start } else { mids[moves_made - 1] };
            match found {
                Some(entry) => {
                    let mv = entry.get_move();
                    if mv.0 == 0 {
                        proof {
                            ended = true;
                        }
                        break;
                    }
                    if !self.can_play(mv) {
                        proof {
                            ended = true;
                        }
                        break;
                    }
                    let ghost before = *self;
                    if self.make_move(mv) {
                        let ghost old_befores = befores;
                        let ghost old_mids = mids;
                        let ghost old_line = pv_moves@;
                        proof {
                            befores = befores.push(before);
                            mids = mids.push(*self);
                        }
                        pv_moves.push(mv);
                        moves_made += 1;
                        proof {
                            assert forall|j: int| 0 <= j < moves_made implies #[trigger] line_step(search.transposition_table, start, befores, mids, pv_moves@, j) by {
                                if j < moves_made - 1 {
                                    assert(line_step(search.transposition_table, start, old_befores, old_mids, old_line, j));
                                    assert(befores[j] == old_befores[j]);
                                    assert(mids[j] == old_mids[j]);
                                    assert(pv_moves@[j] == old_line[j]);
                                    if j > 0 {
                                        assert(mids[j - 1] == old_mids[j - 1]);
                                    }
                                }
                            }
                        }
                    } else {
                        proof {
                            lemma_same_game_trans(self, &before, &(if moves_made == 0 { start } else { mids[moves_made - 1] }));
                            ended = true;
                        }
                        break;
                    }
                },
                None => {
                    proof {
                        ended = true;
                    }
                    break;
                },
            }
            k += 1;
        }

        let mut j = moves_made;
        while j > 0
            invariant
                moves_made == depth || line_ends(search.transposition_table, if moves_made == 0 { start } else { mids[moves_made - 1] }),
                j <= moves_made,
                moves_made == befores.len(),
                moves_made == mids.len(),
                pv_moves@.len() == moves_made,
                start.wf(),
                self.wf(),
                self.same_game(&(if j == 0 { start } else { mids[j - 1] })),
                forall|i: int| 0 <= i < moves_made ==> #[trigger] line_step(search.transposition_table, start, befores, mids, pv_moves@, i),
            decreases j,
        {
            let ghost later = *self;
            proof {
                assert(line_step(search.transposition_table, start, befores, mids, pv_moves@, j - 1));
            }
            self.take_move();
            proof {
                lemma_play_and_take_back(&befores[j - 1], &mids[j - 1], &later, self, pv_moves@[j - 1]);
                lemma_same_game_trans(self, &befores[j - 1], &(if j - 1 == 0 { start } else { mids[j - 2] }));
            }
            j -= 1;
        }
        proof {
            assert(line_played(search.transposition_table, start, befores, mids, pv_moves@));
        }
        pv_moves
    }
}

} // verus!
