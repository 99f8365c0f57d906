//! Counting the leaf nodes of the legal move tree, to check the move generator.
use vstd::prelude::*;
use crate::board::{Board, MAX_GAME_MOVES};
use crate::defs::PieceType;
use crate::makemove::{move_fits, side_has_king, legal_move, apply_pieces, lemma_same_pieces_same_boards, CASTLE_PERMISSION};
use crate::defs::Color;
use crate::movegen::{Move, MoveList};
use crate::movegen::generate::{ready, generated, listed, pseudo_legal};

verus! {

impl Board {
    /// The same position and game record as `before` up to its last move: only history
    /// slots from `before.history_ply` on may differ.
    pub open spec fn same_game(&self, before: &Board) -> bool {
        &&& self.pieces@ == before.pieces@
        &&& self.bitboards == before.bitboards
        &&& self.occupancies == before.occupancies
        &&& self.side == before.side
        &&& self.en_passant == before.en_passant
        &&& self.castle_permission == before.castle_permission
        &&& self.fifty_move == before.fifty_move
        &&& self.history_ply == before.history_ply
        &&& self.ply == before.ply
        &&& self.position_key == before.position_key
        &&& forall|c: int| 0 <= c < 2 && self.has_king(c) ==> self.king_square[c] == before.king_square[c]
        &&& self.history@.len() == before.history@.len()
        &&& forall|i: int| 0 <= i < before.history_ply ==> self.history@[i] == before.history@[i]
        &&& self.history_heuristic == before.history_heuristic
        &&& self.killers == before.killers
        &&& self.keys == before.keys
        &&& self.past == before.past
    }
}

/// Playing a move, doing anything that keeps the game up to the new position, and
/// taking the move back gives the game from before the move.
pub proof fn lemma_play_and_take_back(before: &Board, mid: &Board, later: &Board, after: &Board, mv: crate::movegen::Move)
    requires
        before.wf(),
        mid.wf(),
        later.wf(),
        after.wf(),
        mid.played(before, mv),
        later.same_game(mid),
        after.took_back(later),
    ensures
        after.same_game(before),
{
    lemma_same_pieces_same_boards(after, before);
    assert(after.past@ =~= before.past@);
    assert forall|c: int| 0 <= c < 2 && after.has_king(c) implies after.king_square[c] == before.king_square[c] by {
        let s = choose|s: int| 0 <= s < 64 && #[trigger] crate::board::king_of(after.pieces[s], c);
        assert(crate::board::king_of(before.pieces[s], c));
    }
}

/// `c` holds the position that `mv` leads to from `b`: the pieces moved, the other side
/// to move, and the castling rights and en passant square that follow.
pub open spec fn leads_to(b: Board, mv: Move, c: Board) -> bool {
    let from = mv.from_sq() as int;
    let to = mv.to_sq() as int;
    &&& c.pieces@ == apply_pieces(b.pieces@, b.side, mv)
    &&& c.side == b.side.flip()
    &&& c.castle_permission == b.castle_permission & CASTLE_PERMISSION[from] & CASTLE_PERMISSION[to]
    &&& c.en_passant == (if mv.double_push_flag() {
        Some((if b.side == Color::WHITE { from + 8 } else { from - 8 }) as u8)
    } else {
        None
    })
}

/// A running total as `perft` keeps it: each count added on, capped at `usize::MAX`.
pub open spec fn capped_sum(counts: Seq<int>) -> int
    decreases counts.len(),
{
    if counts.len() == 0 {
        0
    } else {
        let total = capped_sum(counts.drop_last()) + counts.last();
        if total > usize::MAX {
            usize::MAX as int
        } else {
            total
        }
    }
}

/// `n` leaf nodes lie `depth` plies below `b` in the tree of legal moves (their number
/// capped at `usize::MAX`): one at depth 0; none below a position whose side to move
/// has no king; otherwise, over the pseudo-legal moves, each taken once, the sum for the
/// legal ones of the leaf nodes `depth - 1` plies below the position each leads to.
pub open spec fn perft_count(b: Board, depth: nat, n: int) -> bool
    decreases depth,
{
    if depth == 0 {
        n == 1
    } else if !side_has_king(b.pieces@, b.side) {
        n == 0
    } else {
        exists|moves: Seq<Move>, below: Seq<int>| {
            &&& moves.len() == below.len()
            &&& moves.no_duplicates()
            &&& forall|m: Move| #[trigger] moves.contains(m) == pseudo_legal(b, false, m)
            &&& forall|i: int| 0 <= i < moves.len() ==> (if legal_move(b.pieces@, b.side, #[trigger] moves[i]) {
                exists|c: Board| leads_to(b, moves[i], c) && perft_count(c, (depth - 1) as nat, below[i])
            } else {
                below[i] == 0
            })
            &&& n == capped_sum(below)
        }
    }
}

/// `n` leaf nodes lie `depth` plies below the position that `mv` leads to from `b`.
pub open spec fn count_below(b: Board, mv: Move, depth: nat, n: int) -> bool {
    exists|c: Board| leads_to(b, mv, c) && #[trigger] perft_count(c, depth, n)
}

/// The number of leaf nodes of the tree of legal moves `depth` plies deep. A position in
/// which the side to move has no king (one that only an illegal position leads to) has
/// none below it. The position is left as it was.
pub fn perft(position: &mut Board, depth: usize) -> (nodes: usize)
    requires
        old(position).wf(),
        ready(old(position)),
        old(position).history_ply + depth <= MAX_GAME_MOVES,
        old(position).ply + depth < 255,
        old(position).fifty_move + depth < 255,
    ensures
        final(position).wf(),
        final(position).same_game(old(position)),
        depth == 0 ==> nodes == 1,
        depth >= 1 && !side_has_king(old(position).pieces@, old(position).side) ==> nodes == 0,
        depth >= 1 && (forall|m: Move| #[trigger] pseudo_legal(*old(position), false, m)
            ==> !legal_move(old(position).pieces@, old(position).side, m)) ==> nodes == 0,
        depth == 1 && side_has_king(old(position).pieces@, old(position).side)
            && (exists|m: Move| #[trigger] pseudo_legal(*old(position), false, m)
            && legal_move(old(position).pieces@, old(position).side, m)) ==> nodes >= 1,
        perft_count(*old(position), depth as nat, nodes as int),
    decreases depth,
{
    if depth == 0 {
        return 1;
    }
    let ghost start = *position;
    let mut move_list = MoveList::new();
    let mut nodes: usize = 0;
    move_list.generate_all_moves(position);

    let king = position.bitboards[PieceType::KING.bb_index(position.side)];
    if king == 0 {
        proof {
            reveal(Board::bb_ok);
            if side_has_king(start.pieces@, start.side) {
                let s = choose|s: int| 0 <= s < 64 && #[trigger] crate::board::king_of(start.pieces@[s], start.side.idx() as int);
                crate::defs::lemma_piece_index_roundtrip(start.pieces[s]);
                assert(crate::bits::bit(king, s));
                crate::bits::lemma_bit_zero(s as u64);
            }
        }
        return 0;
    }
    proof {
        reveal(Board::bb_ok);
        let s = crate::bits::lsb(king);
        crate::bits::lemma_lsb(king);
        crate::defs::lemma_piece_index_roundtrip(position.pieces[s]);
        assert(crate::board::king_of(position.pieces@[s], position.side.idx() as int));
        assert(side_has_king(position.pieces@, position.side));
    }

    let count = move_list.moves.len();
    let ghost ms = Seq::new(count as nat, |k: int| move_list.moves@[k].mv);
    let ghost mut below_seq: Seq<int> = Seq::empty();
    let mut i: usize = 0;
    while i < count
        invariant
            0 <= i <= count,
            count == move_list.moves.len(),
            depth >= 1,
            position.wf(),
            ready(position),
            position.same_game(&start),
            start.wf(),
            start.history_ply + depth <= MAX_GAME_MOVES,
            start.ply + depth < 255,
            start.fifty_move + depth < 255,
            side_has_king(start.pieces@, start.side),
            forall|k: int| 0 <= k < count ==> #[trigger] generated(start, move_list.moves@[k], false),
            forall|m: Move| #[trigger] listed(move_list.moves@, m) == pseudo_legal(start, false, m),
            ms.len() == count,
            forall|k: int| 0 <= k < count ==> #[trigger] ms[k] == move_list.moves@[k].mv,
            below_seq.len() == i,
            nodes == capped_sum(below_seq),
            forall|k: int| 0 <= k < i ==> (if legal_move(start.pieces@, start.side, #[trigger] ms[k]) {
                count_below(start, ms[k], (depth - 1) as nat, below_seq[k])
            } else {
                below_seq[k] == 0
            }),
            nodes > 0 ==> exists|k: int| 0 <= k < i && legal_move(start.pieces@, start.side, #[trigger] move_list.moves@[k].mv),
            depth == 1 ==> ((exists|k: int| 0 <= k < i && legal_move(start.pieces@, start.side, #[trigger] move_list.moves@[k].mv)) ==> nodes >= 1),
        decreases count - i,
    {
        let mv = move_list.moves[i].mv;
        proof {
            assert(generated(start, move_list.moves@[i as int], false));
        }
        let ghost before = *position;
        let ghost nodes_before = nodes;
        let ghost below_before = below_seq;
        if position.make_move(mv) {
            let ghost mid = *position;
            let below = perft(position, depth - 1);
            let ghost later = *position;
            nodes = nodes.saturating_add(below);
            position.take_move();
            proof {
                lemma_play_and_take_back(&before, &mid, &later, position, mv);
                assert(legal_move(start.pieces@, start.side, move_list.moves@[i as int].mv));
                below_seq = below_seq.push(below as int);
                assert(below_seq.drop_last() =~= below_before);
                assert(leads_to(start, ms[i as int], mid));
                assert(perft_count(mid, (depth - 1) as nat, below as int));
                assert(count_below(start, ms[i as int], (depth - 1) as nat, below_seq[i as int]));
            }
        } else {
            proof {
                below_seq = below_seq.push(0);
                assert(below_seq.drop_last() =~= below_before);
            }
        }
        proof {
            assert forall|k: int| 0 <= k < i + 1 implies (if legal_move(start.pieces@, start.side, #[trigger] ms[k]) {
                count_below(start, ms[k], (depth - 1) as nat, below_seq[k])
            } else {
                below_seq[k] == 0
            }) by {
                if k < i {
                    assert(below_seq[k] == below_before[k]);
                }
            }
        }
        proof {
            if nodes > 0 && nodes_before == 0 {
                assert(legal_move(start.pieces@, start.side, move_list.moves@[i as int].mv));
            }
            if depth == 1 && (exists|k: int| 0 <= k < i + 1 && legal_move(start.pieces@, start.side, #[trigger] move_list.moves@[k].mv)) {
                if !(exists|k: int| 0 <= k < i && legal_move(start.pieces@, start.side, #[trigger] move_list.moves@[k].mv)) {
                    assert(legal_move(start.pieces@, start.side, move_list.moves@[i as int].mv));
                }
            }
        }
        i += 1;
    }
    proof {
        if nodes > 0 {
            let k = choose|k: int| 0 <= k < count && legal_move(start.pieces@, start.side, #[trigger] move_list.moves@[k].mv);
            assert(listed(move_list.moves@, move_list.moves@[k].mv));
        }
        if depth == 1 && (exists|m: Move| #[trigger] pseudo_legal(start, false, m) && legal_move(start.pieces@, start.side, m)) {
            let m = choose|m: Move| #[trigger] pseudo_legal(start, false, m) && legal_move(start.pieces@, start.side, m);
            assert(listed(move_list.moves@, m));
            let k = choose|k: int| 0 <= k < move_list.moves@.len() && #[trigger] move_list.moves@[k].mv == m;
            assert(legal_move(start.pieces@, start.side, move_list.moves@[k].mv));
        }
        assert forall|a: int, c: int| 0 <= a < ms.len() && 0 <= c < ms.len() && a != c implies ms[a] != ms[c] by {
            if a < c {
                assert(move_list.moves@[a].mv != move_list.moves@[c].mv);
            } else {
                assert(move_list.moves@[c].mv != move_list.moves@[a].mv);
            }
        }
        assert(ms.no_duplicates());
        assert forall|m: Move| #[trigger] ms.contains(m) == pseudo_legal(start, false, m) by {
            if ms.contains(m) {
                let k = choose|k: int| 0 <= k < ms.len() && ms[k] == m;
                assert(move_list.moves@[k].mv == m);
                assert(listed(move_list.moves@, m));
            }
            if pseudo_legal(start, false, m) {
                assert(listed(move_list.moves@, m));
                let k = choose|k: int| 0 <= k < move_list.moves@.len() && #[trigger] move_list.moves@[k].mv == m;
                assert(ms[k] == m);
            }
        }
        assert forall|k: int| 0 <= k < ms.len() && legal_move(start.pieces@, start.side, #[trigger] ms[k]) implies
            exists|c: Board| leads_to(start, ms[k], c) && perft_count(c, (depth - 1) as nat, below_seq[k]) by {
            assert(count_below(start, ms[k], (depth - 1) as nat, below_seq[k]));
        }
        assert(perft_count(start, depth as nat, nodes as int));
    }
    nodes
}

/// The legal moves of the position, in generation order, each with the number of leaf
/// nodes `depth - 1` plies below it (one each at depth one); none where the side to move
/// has no king. The position is left as it was.
pub fn perft_divide(position: &mut Board, depth: usize) -> (counts: Vec<(Move, usize)>)
    requires
        old(position).wf(),
        ready(old(position)),
        depth >= 1,
        old(position).history_ply + depth <= MAX_GAME_MOVES,
        old(position).ply + depth < 255,
        old(position).fifty_move + depth < 255,
    ensures
        final(position).wf(),
        final(position).same_game(old(position)),
        forall|i: int| 0 <= i < counts@.len() ==> pseudo_legal(*old(position), false, #[trigger] counts@[i].0)
            && legal_move(old(position).pieces@, old(position).side, counts@[i].0),
        side_has_king(old(position).pieces@, old(position).side) ==> forall|m: Move| #[trigger] pseudo_legal(*old(position), false, m)
            && legal_move(old(position).pieces@, old(position).side, m)
            ==> exists|i: int| 0 <= i < counts@.len() && #[trigger] counts@[i].0 == m,
        !side_has_king(old(position).pieces@, old(position).side) ==> counts@.len() == 0,
        depth == 1 ==> forall|i: int| 0 <= i < counts@.len() ==> #[trigger] counts@[i].1 == 1,
        forall|i: int| 0 <= i < counts@.len() ==> count_below(*old(position), #[trigger] counts@[i].0, (depth - 1) as nat, counts@[i].1 as int),
        forall|i: int, j: int| 0 <= i < j < counts@.len() ==> #[trigger] counts@[i].0 != #[trigger] counts@[j].0,
{
    let ghost start = *position;
    let mut move_list = MoveList::new();
    move_list.generate_all_moves(position);
    let mut counts: Vec<(Move, usize)> = Vec::new();
    let king = position.bitboards[PieceType::KING.bb_index(position.side)];
    if king == 0 {
        proof {
            reveal(Board::bb_ok);
            if side_has_king(start.pieces@, start.side) {
                let s = choose|s: int| 0 <= s < 64 && #[trigger] crate::board::king_of(start.pieces@[s], start.side.idx() as int);
                crate::defs::lemma_piece_index_roundtrip(start.pieces[s]);
                assert(crate::bits::bit(king, s));
                crate::bits::lemma_bit_zero(s as u64);
            }
        }
        return counts;
    }
    proof {
        reveal(Board::bb_ok);
        let s = crate::bits::lsb(king);
        crate::bits::lemma_lsb(king);
        crate::defs::lemma_piece_index_roundtrip(position.pieces[s]);
        assert(crate::board::king_of(position.pieces@[s], position.side.idx() as int));
        assert(side_has_king(position.pieces@, position.side));
    }
    let count = move_list.moves.len();
    let ghost mut children: Seq<Board> = Seq::empty();
    let mut i: usize = 0;
    while i < count
        invariant
            0 <= i <= count,
            count == move_list.moves.len(),
            depth >= 1,
            position.wf(),
            ready(position),
            position.same_game(&start),
            start.wf(),
            start.history_ply + depth <= MAX_GAME_MOVES,
            start.ply + depth < 255,
            start.fifty_move + depth < 255,
            side_has_king(start.pieces@, start.side),
            forall|k: int| 0 <= k < count ==> #[trigger] generated(start, move_list.moves@[k], false),
            forall|m: Move| #[trigger] listed(move_list.moves@, m) == pseudo_legal(start, false, m),
            forall|j: int| 0 <= j < counts@.len() ==> pseudo_legal(start, false, #[trigger] counts@[j].0)
                && legal_move(start.pieces@, start.side, counts@[j].0),
            forall|k: int| 0 <= k < i && legal_move(start.pieces@, start.side, #[trigger] move_list.moves@[k].mv)
                ==> exists|j: int| 0 <= j < counts@.len() && #[trigger] counts@[j].0 == move_list.moves@[k].mv,
            depth == 1 ==> forall|j: int| 0 <= j < counts@.len() ==> #[trigger] counts@[j].1 == 1,
            children.len() == counts@.len(),
            crate::movegen::generate::distinct_moves(move_list.moves@),
            forall|j: int| #![trigger counts@[j]] 0 <= j < counts@.len() ==> exists|k: int| 0 <= k < i && #[trigger] move_list.moves@[k].mv == counts@[j].0,
            forall|a: int, b: int| 0 <= a < b < counts@.len() ==> #[trigger] counts@[a].0 != #[trigger] counts@[b].0,
            forall|j: int| 0 <= j < counts@.len() ==> leads_to(start, #[trigger] counts@[j].0, children[j])
                && perft_count(children[j], (depth - 1) as nat, counts@[j].1 as int),
        decreases count - i,
    {
        let mv = move_list.moves[i].mv;
        proof {
            assert(generated(start, move_list.moves@[i as int], false));
            assert(listed(move_list.moves@, mv));
        }
        let ghost before = *position;
        if position.make_move(mv) {
            let ghost mid = *position;
            let nodes = if depth == 1 {
                1
            } else {
                perft(position, depth - 1)
            };
            let ghost later = *position;
            position.take_move();
            proof {
                lemma_play_and_take_back(&before, &mid, &later, position, mv);
            }
            let ghost old_counts = counts@;
            counts.push((mv, nodes));
            proof {
                assert(counts@[old_counts.len() as int].0 == mv);
                assert(leads_to(start, mv, mid));
                assert(perft_count(mid, (depth - 1) as nat, nodes as int));
                let old_children = children;
                children = children.push(mid);
                assert forall|j: int| #![trigger counts@[j]] 0 <= j < counts@.len() implies exists|k: int| 0 <= k < i + 1 && #[trigger] move_list.moves@[k].mv == counts@[j].0 by {
                    if j < old_counts.len() {
                        assert(counts@[j] == old_counts[j]);
                        let k = choose|k: int| 0 <= k < i && #[trigger] move_list.moves@[k].mv == old_counts[j].0;
                        assert(move_list.moves@[k].mv == counts@[j].0);
                    } else {
                        assert(move_list.moves@[i as int].mv == counts@[j].0);
                    }
                }
                assert forall|a: int, b: int| 0 <= a < b < counts@.len() implies #[trigger] counts@[a].0 != #[trigger] counts@[b].0 by {
                    assert(counts@[a] == old_counts[a]);
                    if b < old_counts.len() {
                        assert(counts@[b] == old_counts[b]);
                    } else {
                        let k = choose|k: int| 0 <= k < i && #[trigger] move_list.moves@[k].mv == old_counts[a].0;
                        assert(move_list.moves@[k].mv != move_list.moves@[i as int].mv);
                    }
                }
                assert forall|j: int| 0 <= j < counts@.len() implies leads_to(start, #[trigger] counts@[j].0, children[j])
                    && perft_count(children[j], (depth - 1) as nat, counts@[j].1 as int) by {
                    if j < old_counts.len() {
                        assert(counts@[j] == old_counts[j]);
                        assert(old_counts[j].0 == old_counts[j].0);
                        assert(children[j] == old_children[j]);
                    } else {
                        assert(counts@[j] == (mv, nodes));
                    }
                }
                assert forall|k: int| 0 <= k < i + 1 && legal_move(start.pieces@, start.side, #[trigger] move_list.moves@[k].mv)
                    implies exists|j: int| 0 <= j < counts@.len() && #[trigger] counts@[j].0 == move_list.moves@[k].mv by {
                    if k < i {
                        let j = choose|j: int| 0 <= j < old_counts.len() && #[trigger] old_counts[j].0 == move_list.moves@[k].mv;
                        assert(counts@[j] == old_counts[j]);
                    } else {
                        assert(counts@[old_counts.len() as int].0 == move_list.moves@[k].mv);
                    }
                }
            }
        }
        i += 1;
    }
    proof {
        assert forall|m: Move| #[trigger] pseudo_legal(start, false, m) && legal_move(start.pieces@, start.side, m)
            implies exists|j: int| 0 <= j < counts@.len() && #[trigger] counts@[j].0 == m by {
            assert(listed(move_list.moves@, m));
            let k = choose|k: int| 0 <= k < move_list.moves@.len() && #[trigger] move_list.moves@[k].mv == m;
            assert(legal_move(start.pieces@, start.side, move_list.moves@[k].mv));
        }
        assert(start == *old(position));
        assert forall|j: int| 0 <= j < counts@.len() implies count_below(*old(position), #[trigger] counts@[j].0, (depth - 1) as nat, counts@[j].1 as int) by {
            assert(leads_to(*old(position), counts@[j].0, children[j]));
            assert(perft_count(children[j], (depth - 1) as nat, counts@[j].1 as int));
        }
    }
    counts
}

} // verus!
