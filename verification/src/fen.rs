//! Reading a position from Forsyth-Edwards Notation and writing it back.
use vstd::prelude::*;
use crate::board::{Board, Undo, king_of, MAX_GAME_MOVES};
use crate::defs::{Color, Piece, WHITE_KING_CASTLE, WHITE_QUEEN_CASTLE, BLACK_KING_CASTLE, BLACK_QUEEN_CASTLE};
use crate::makemove::kings_unique;

use crate::zobrist::ZobristKeys;
use vstd::string::StringSliceAdditionalSpecFns;

verus! {

pub open spec fn is_ws(c: u8) -> bool {
    c == 32 || (9 <= c && c <= 13)
}

/// The fields finished within the first `n` bytes, and the field still being read.
pub open spec fn split_state(s: Seq<u8>, n: int) -> (Seq<Seq<u8>>, Seq<u8>)
    decreases n,
{
    if n <= 0 {
        (Seq::empty(), Seq::empty())
    } else {
        let (fs, cur) = split_state(s, n - 1);
        let c = s[n - 1];
        if is_ws(c) {
            if cur.len() > 0 {
                (fs.push(cur), Seq::empty())
            } else {
                (fs, Seq::empty())
            }
        } else {
            (fs, cur.push(c))
        }
    }
}

/// The whitespace-separated fields of a string.
pub open spec fn fen_fields(s: Seq<u8>) -> Seq<Seq<u8>> {
    let (fs, cur) = split_state(s, s.len() as int);
    if cur.len() > 0 {
        fs.push(cur)
    } else {
        fs
    }
}

pub open spec fn views(v: Seq<Vec<u8>>) -> Seq<Seq<u8>> {
    v.map_values(|x: Vec<u8>| x@)
}

/// Splits on whitespace.
pub fn split_fields(s: &[u8]) -> (r: Vec<Vec<u8>>)
    ensures
        views(r@) == fen_fields(s@),
{
    let mut fields: Vec<Vec<u8>> = Vec::new();
    let mut cur: Vec<u8> = Vec::new();
    let mut i: usize = 0;
    while i < s.len()
        invariant
            i <= s.len(),
            (views(fields@), cur@) == split_state(s@, i as int),
        decreases s.len() - i,
    {
        let c = s[i];
        if c == 32 || (9 <= c && c <= 13) {
            if cur.len() > 0 {
                let ghost fv = views(fields@);
                let ghost cv = cur@;
                fields.push(cur);
                proof {
                    assert(views(fields@) =~= fv.push(cv));
                }
                cur = Vec::new();
            }
        } else {
            cur.push(c);
        }
        i += 1;
    }
    if cur.len() > 0 {
        let ghost fv = views(fields@);
        let ghost cv = cur@;
        fields.push(cur);
        proof {
            assert(views(fields@) =~= fv.push(cv));
        }
    }
    fields
}

/// The piece a placement character stands for; any other character gives `NONE`.
pub open spec fn char_piece(c: u8) -> Piece {
    if c == 112 {
        Piece::BLACK_PAWN
    } else if c == 114 {
        Piece::BLACK_ROOK
    } else if c == 110 {
        Piece::BLACK_KNIGHT
    } else if c == 98 {
        Piece::BLACK_BISHOP
    } else if c == 107 {
        Piece::BLACK_KING
    } else if c == 113 {
        Piece::BLACK_QUEEN
    } else if c == 80 {
        Piece::WHITE_PAWN
    } else if c == 82 {
        Piece::WHITE_ROOK
    } else if c == 78 {
        Piece::WHITE_KNIGHT
    } else if c == 66 {
        Piece::WHITE_BISHOP
    } else if c == 75 {
        Piece::WHITE_KING
    } else if c == 81 {
        Piece::WHITE_QUEEN
    } else if c == 100 {
        Piece::BLACK_DRAGON
    } else if c == 68 {
        Piece::WHITE_DRAGON
    } else {
        Piece::NONE
    }
}

fn piece_of_char(c: u8) -> (p: Piece)
    ensures
        p == char_piece(c),
{
    match c {
        112 => Piece::BLACK_PAWN,
        114 => Piece::BLACK_ROOK,
        110 => Piece::BLACK_KNIGHT,
        98 => Piece::BLACK_BISHOP,
        107 => Piece::BLACK_KING,
        113 => Piece::BLACK_QUEEN,
        80 => Piece::WHITE_PAWN,
        82 => Piece::WHITE_ROOK,
        78 => Piece::WHITE_KNIGHT,
        66 => Piece::WHITE_BISHOP,
        75 => Piece::WHITE_KING,
        81 => Piece::WHITE_QUEEN,
        100 => Piece::BLACK_DRAGON,
        68 => Piece::WHITE_DRAGON,
        _ => Piece::NONE,
    }
}

pub open spec fn empty_board() -> Seq<Piece> {
    Seq::new(64, |i: int| Piece::NONE)
}

/// Reading the first `n` characters of the placement field, from a8 rank by rank:
/// the pieces placed, the current rank and file, and whether every piece landed on an
/// empty square of the board.
pub open spec fn place(f: Seq<u8>, n: int) -> (Seq<Piece>, int, int, bool)
    decreases n,
{
    if n <= 0 {
        (empty_board(), 7, 0, true)
    } else {
        let (ps, rank, file, ok) = place(f, n - 1);
        let c = f[n - 1];
        let p = char_piece(c);
        if p != Piece::NONE {
            let sq = rank * 8 + file;
            if ok && rank >= 0 && 0 <= sq < 64 && ps[sq] == Piece::NONE {
                (ps.update(sq, p), rank, file + 1, true)
            } else {
                (ps, rank, file + 1, false)
            }
        } else if 48 <= c && c <= 57 {
            (ps, rank, file + (c - 48), ok)
        } else if c == 47 {
            (ps, rank - 1, 0, ok)
        } else {
            (ps, rank, file, ok)
        }
    }
}

pub open spec fn placement(f: Seq<u8>) -> Seq<Piece> {
    place(f, f.len() as int).0
}

/// The castling rights of the first `n` characters of the castling field, and whether a
/// '-' ended it.
pub open spec fn castle_state(f: Seq<u8>, n: int) -> (u8, bool)
    decreases n,
{
    if n <= 0 {
        (0, false)
    } else {
        let (c, stop) = castle_state(f, n - 1);
        let ch = f[n - 1];
        if stop {
            (c, true)
        } else if ch == 75 {
            (c | WHITE_KING_CASTLE, false)
        } else if ch == 81 {
            (c | WHITE_QUEEN_CASTLE, false)
        } else if ch == 107 {
            (c | BLACK_KING_CASTLE, false)
        } else if ch == 113 {
            (c | BLACK_QUEEN_CASTLE, false)
        } else if ch == 45 {
            (c, true)
        } else {
            (c, false)
        }
    }
}

pub open spec fn side_of_field(f: Seq<u8>) -> Color {
    if f == seq![119u8] {
        Color::WHITE
    } else if f == seq![98u8] {
        Color::BLACK
    } else {
        Color::EITHER
    }
}

pub open spec fn ep_of_field(f: Seq<u8>) -> Option<u8> {
    if f == seq![45u8] {
        None
    } else {
        Some(((f[1] - 49) * 8 + (f[0] - 97)) as u8)
    }
}

/// The en passant field is '-' or a file letter and a rank digit naming a square.
pub open spec fn ep_field_ok(f: Seq<u8>) -> bool {
    f == seq![45u8] || (f.len() >= 2 && f[0] >= 97 && 49 <= f[1] <= 57 && 0 <= (f[1] - 49) * 8 + (
    f[0] - 97) < 64)
}

/// A FEN the engine can read: at least four fields, every piece placed on an empty square
/// of the board, at most one king of each colour, and a readable en passant field.
pub open spec fn fen_ok(s: Seq<u8>) -> bool {
    let fs = fen_fields(s);
    &&& fs.len() >= 4
    &&& place(fs[0], fs[0].len() as int).3
    &&& kings_unique(placement(fs[0]))
    &&& ep_field_ok(fs[3])
}

proof fn lemma_split_short(s: Seq<u8>, n: int)
    requires
        0 <= n <= s.len(),
    ensures
        forall|k: int| 0 <= k < split_state(s, n).0.len() ==> #[trigger] split_state(s, n).0[k].len() <= n,
        split_state(s, n).1.len() <= n,
    decreases n,
{
    if n > 0 {
        lemma_split_short(s, n - 1);
    }
}

/// No field is longer than the string.
pub proof fn lemma_fields_short(s: Seq<u8>)
    ensures
        forall|k: int| 0 <= k < fen_fields(s).len() ==> #[trigger] fen_fields(s)[k].len() <= s.len(),
{
    lemma_split_short(s, s.len() as int);
}

/// Once a piece fails to land, the placement stays failed.
pub proof fn lemma_place_ok_prefix(f: Seq<u8>, m: int, n: int)
    requires
        0 <= m <= n <= f.len(),
        place(f, n).3,
    ensures
        place(f, m).3,
    decreases n - m,
{
    if m < n {
        lemma_place_ok_prefix(f, m + 1, n);
    }
}

/// A placed piece stays where it was placed.
pub proof fn lemma_place_keeps(f: Seq<u8>, m: int, n: int, sq: int)
    requires
        0 <= m <= n <= f.len(),
        0 <= sq < 64,
        place(f, n).3,
        place(f, m).0[sq] != Piece::NONE,
    ensures
        place(f, n).0[sq] == place(f, m).0[sq],
    decreases n - m,
{
    if m < n {
        lemma_place_ok_prefix(f, m + 1, n);
        lemma_place_len(f, m);
        assert(place(f, m + 1).0[sq] == place(f, m).0[sq]);
        lemma_place_keeps(f, m + 1, n, sq);
    }
}

pub proof fn lemma_place_len(f: Seq<u8>, n: int)
    ensures
        place(f, n).0.len() == 64,
    decreases n,
{
    if n > 0 {
        lemma_place_len(f, n - 1);
    }
}

impl Board {
    /// Empties the board and clears the counters and the record of moves.
    fn reset_board(&mut self)
        requires
            old(self).history.len() == MAX_GAME_MOVES,
            old(self).keys.wf(),
        ensures
            final(self).bb_ok(),
            final(self).king_ok(),
            final(self).misc_ok(),
            final(self).chain_ok(),
            final(self).pieces@ == empty_board(),
            final(self).en_passant.is_none(),
            final(self).fifty_move == 0,
            final(self).ply == 0,
            final(self).history_ply == 0,
            final(self).castle_permission == 0,
            final(self).position_key == 0,
            final(self).side == old(self).side,
            final(self).history@ == old(self).history@,
            final(self).keys == old(self).keys,
            final(self).killers == old(self).killers,
            final(self).history_heuristic == old(self).history_heuristic,
    {
        let mut square: usize = 0;
        while square < 64
            invariant
                square <= 64,
                forall|i: int| 0 <= i < square ==> self.pieces[i] == Piece::NONE,
                self.history.len() == MAX_GAME_MOVES,
                self.keys.wf(),
                self.side == old(self).side,
                self.history@ == old(self).history@,
                self.keys == old(self).keys,
                self.killers == old(self).killers,
                self.history_heuristic == old(self).history_heuristic,
            decreases 64 - square,
        {
            self.pieces[square] = Piece::NONE;
            square += 1;
        }
        self.bitboards = [0u64; 32];
        self.occupancies = [0u64; 3];
        self.king_square = [0usize; 2];
        self.en_passant = None;
        self.fifty_move = 0;
        self.ply = 0;
        self.history_ply = 0;
        self.castle_permission = 0;
        self.position_key = 0;
        self.past = Ghost(Seq::empty());
        proof {
            reveal(Board::bb_ok);
            assert(self.pieces@ =~= empty_board());
            assert forall|p: int, s: int| 0 <= p < 32 && 0 <= s < 64 implies !crate::bits::bit(self.bitboards[p], s) by {
                crate::bits::lemma_bit_zero(s as u64);
            }
            assert forall|c: int, s: int| 0 <= c < 3 && 0 <= s < 64 implies !crate::bits::bit(self.occupancies[c], s) by {
                crate::bits::lemma_bit_zero(s as u64);
            }
        }
    }

    /// Sets up the position a FEN string describes. The move counters are not read: the
    /// fifty-move counter and the ply start at zero.
    pub fn parse_fen(&mut self, fen: &str)
        requires
            fen_ok(fen.spec_bytes()),
            fen.spec_bytes().len() < 0x1_0000_0000,
            old(self).history.len() == MAX_GAME_MOVES,
            old(self).keys.wf(),
        ensures
            final(self).wf(),
            ({
                let fs = fen_fields(fen.spec_bytes());
                &&& final(self).pieces@ == placement(fs[0])
                &&& final(self).side == side_of_field(fs[1])
                &&& final(self).castle_permission == castle_state(fs[2], fs[2].len() as int).0
                &&& final(self).en_passant == ep_of_field(fs[3])
            }),
            final(self).fifty_move == 0,
            final(self).ply == 0,
            final(self).history_ply == 0,
            final(self).keys == old(self).keys,
            final(self).killers == old(self).killers,
            final(self).history_heuristic == old(self).history_heuristic,
    {
        let bytes = fen.as_bytes();
        let fields = split_fields(bytes);
        let ghost fs = fen_fields(fen.spec_bytes());
        self.reset_board();
        proof {
            lemma_fields_short(bytes@);
            assert(views(fields@)[0] == fields@[0]@);
            assert(views(fields@)[1] == fields@[1]@);
            assert(views(fields@)[2] == fields@[2]@);
            assert(views(fields@)[3] == fields@[3]@);
        }

        // Piece placement, from a8 rank by rank.
        let f0 = &fields[0];
        let n0 = f0.len();
        let mut rank: i64 = 7;
        let mut file: i64 = 0;
        let mut i: usize = 0;
        proof {
            lemma_place_len(f0@, n0 as int);
        }
        while i < n0
            invariant
                n0 == f0@.len(),
                f0@ == fs[0],
                n0 < 0x1_0000_0000,
                i <= n0,
                place(f0@, n0 as int).3,
                kings_unique(placement(f0@)),
                ({
                    let st = place(f0@, i as int);
                    &&& self.pieces@ == st.0
                    &&& rank == st.1
                    &&& file == st.2
                }),
                7 - i <= rank <= 7,
                0 <= file <= 9 * i,
                self.bb_ok(),
                self.king_ok(),
                self.misc_ok(),
                self.chain_ok(),
                self.en_passant.is_none(),
                self.fifty_move == 0,
                self.ply == 0,
                self.history_ply == 0,
                self.castle_permission == 0,
                self.keys == old(self).keys,
                self.killers == old(self).killers,
                self.history_heuristic == old(self).history_heuristic,
            decreases n0 - i,
        {
            proof {
                lemma_place_ok_prefix(f0@, i as int + 1, n0 as int);
                lemma_place_len(f0@, i as int);
            }
            let c = f0[i];
            let piece = piece_of_char(c);
            if piece != Piece::NONE {
                let sq = (rank * 8 + file) as usize;
                proof {
                    assert forall|cc: int, s: int| 0 <= cc < 2 && 0 <= s < 64 && king_of(piece, cc) implies !king_of(self.pieces[s], cc) by {
                        if king_of(self.pieces[s], cc) {
                            lemma_place_keeps(f0@, i as int, n0 as int, s);
                            lemma_place_keeps(f0@, i as int + 1, n0 as int, sq as int);
                        }
                    }
                }
                self.add_piece(sq, piece);
                file = file + 1;
            } else if 48 <= c && c <= 57 {
                file = file + (c - 48) as i64;
            } else if c == 47 {
                rank = rank - 1;
                file = 0;
            }
            i += 1;
            proof {
                assert(self.pieces@ =~= place(f0@, i as int).0);
            }
        }
        proof {
            assert(self.pieces@ == placement(fs[0]));
        }

        let ghost placed = *self;
        // Side to move.
        let f1 = &fields[1];
        if f1.len() == 1 && f1[0] == 119 {
            self.side = Color::WHITE;
            proof {
                assert(f1@ =~= seq![119u8]);
            }
        } else if f1.len() == 1 && f1[0] == 98 {
            self.side = Color::BLACK;
            proof {
                assert(f1@ =~= seq![98u8]);
            }
        } else {
            self.side = Color::EITHER;
        }

        // Castling rights.
        let f2 = &fields[2];
        let mut castle: u8 = 0;
        let mut j: usize = 0;
        let mut stop = false;
        while j < f2.len()
            invariant
                j <= f2@.len(),
                (castle, stop) == castle_state(f2@, j as int),
                castle < 16,
            decreases f2@.len() - j,
        {
            let ch = f2[j];
            proof {
                assert(castle | 1u8 < 16 && castle | 2u8 < 16 && castle | 4u8 < 16 && castle | 8u8 < 16) by (bit_vector)
                    requires castle < 16u8;
            }
            if !stop {
                if ch == 75 {
                    castle = castle | WHITE_KING_CASTLE;
                } else if ch == 81 {
                    castle = castle | WHITE_QUEEN_CASTLE;
                } else if ch == 107 {
                    castle = castle | BLACK_KING_CASTLE;
                } else if ch == 113 {
                    castle = castle | BLACK_QUEEN_CASTLE;
                } else if ch == 45 {
                    stop = true;
                }
            }
            j += 1;
        }
        self.castle_permission = castle;

        // En passant square.
        let f3 = &fields[3];
        if f3.len() == 1 && f3[0] == 45 {
            proof {
                assert(f3@ =~= seq![45u8]);
            }
            self.en_passant = None;
        } else {
            proof {
                assert(f3@ != seq![45u8]);
            }
            let ep_file = (f3[0] - 97) as usize;
            let ep_rank = (f3[1] - 49) as usize;
            self.en_passant = Some((ep_rank * 8 + ep_file) as u8);
        }
        proof {
            crate::makemove::lemma_bb_ok_frame(&placed, self);
        }
        let k = self.generate_position_key();
        let ghost keyed = *self;
        self.position_key = k;
        proof {
            crate::makemove::lemma_bb_ok_frame(&keyed, self);
        }
    }
}

impl Board {
    /// The position a FEN string describes, with the standard Zobrist keys (the same
    /// for every board it makes).
    pub fn new(fen: &str) -> (b: Board)
        requires
            fen_ok(fen.spec_bytes()),
            fen.spec_bytes().len() < 0x1_0000_0000,
        ensures
            b.wf(),
            crate::zobrist::is_standard(b.keys),
            ({
                let fs = fen_fields(fen.spec_bytes());
                &&& b.pieces@ == placement(fs[0])
                &&& b.side == side_of_field(fs[1])
                &&& b.castle_permission == castle_state(fs[2], fs[2].len() as int).0
                &&& b.en_passant == ep_of_field(fs[3])
            }),
            b.fifty_move == 0,
            b.ply == 0,
            b.history_ply == 0,
    {
        let mut board = Board::default();
        board.parse_fen(fen);
        board
    }

    /// The position a FEN string describes, keyed by a given set of Zobrist keys, so that
    /// boards made with the same keys give the same position the same key.
    pub fn new_with_keys(fen: &str, keys: &ZobristKeys) -> (b: Board)
        requires
            fen_ok(fen.spec_bytes()),
            fen.spec_bytes().len() < 0x1_0000_0000,
            keys.wf(),
        ensures
            b.wf(),
            ({
                let fs = fen_fields(fen.spec_bytes());
                &&& b.pieces@ == placement(fs[0])
                &&& b.side == side_of_field(fs[1])
                &&& b.castle_permission == castle_state(fs[2], fs[2].len() as int).0
                &&& b.en_passant == ep_of_field(fs[3])
            }),
            b.fifty_move == 0,
            b.ply == 0,
            b.history_ply == 0,
            b.keys.piece@ == keys.piece@,
            b.keys.side == keys.side,
            b.keys.castle@ == keys.castle@,
            b.keys.en_passant@ == keys.en_passant@,
    {
        let mut board = Board::default();
        board.keys = keys.clone_keys();
        board.parse_fen(fen);
        board
    }

    /// Two well-formed boards with the same Zobrist numbers that hold the same position
    /// (pieces, side, en passant square, castling rights) have the same position key.
    pub proof fn lemma_same_position_same_key(a: &Board, b: &Board)
        requires
            a.wf(),
            b.wf(),
            a.keys.piece@ == b.keys.piece@,
            a.keys.side == b.keys.side,
            a.keys.castle@ == b.keys.castle@,
            a.keys.en_passant@ == b.keys.en_passant@,
            a.pieces@ == b.pieces@,
            a.side == b.side,
            a.en_passant == b.en_passant,
            a.castle_permission == b.castle_permission,
        ensures
            a.position_key == b.position_key,
    {
        crate::zobrist::lemma_key_of_same_keys(a.keys, b.keys, a.pieces@, a.side, a.en_passant, a.castle_permission);
    }

    /// Two well-formed boards with the standard keys that hold the same position have the
    /// same position key, and when they differ only in the side to move, white's key is
    /// black's with the side number xor'd in.
    pub proof fn lemma_standard_keys_agree(a: &Board, b: &Board)
        requires
            a.wf(),
            b.wf(),
            crate::zobrist::is_standard(a.keys),
            crate::zobrist::is_standard(b.keys),
            a.pieces@ == b.pieces@,
            a.en_passant == b.en_passant,
            a.castle_permission == b.castle_permission,
        ensures
            a.side == b.side ==> a.position_key == b.position_key,
            a.side == Color::WHITE && b.side == Color::BLACK ==> a.position_key == b.position_key ^ a.keys.side,
    {
        assert(a.keys.piece@ =~= b.keys.piece@);
        assert(a.keys.castle@ =~= b.keys.castle@);
        assert(a.keys.en_passant@ =~= b.keys.en_passant@);
        crate::zobrist::lemma_key_of_same_keys(a.keys, b.keys, a.pieces@, b.side, a.en_passant, a.castle_permission);
        crate::zobrist::lemma_side_key(a.keys, a.pieces@, a.en_passant, a.castle_permission);
        crate::zobrist::lemma_key_of_same_keys(a.keys, b.keys, a.pieces@, Color::BLACK, a.en_passant, a.castle_permission);
    }

    /// Whether `fen` is a FEN string `new` and `parse_fen` accept.
    pub fn fen_is_valid(fen: &str) -> (r: bool)
        ensures
            r == (fen_ok(fen.spec_bytes()) && fen.spec_bytes().len() < 0x1_0000_0000),
    {
        let bytes = fen.as_bytes();
        if bytes.len() as u64 >= 0x1_0000_0000u64 {
            return false;
        }
        let fields = split_fields(bytes);
        proof {
            lemma_fields_short(bytes@);
        }
        if fields.len() < 4 {
            return false;
        }
        proof {
            assert(views(fields@)[0] == fields@[0]@);
            assert(views(fields@)[3] == fields@[3]@);
        }
        // Placement: every piece lands on an empty square, at most one king per colour.
        let f0 = &fields[0];
        let n0 = f0.len();
        let mut pieces: Vec<Piece> = Vec::new();
        let mut k: usize = 0;
        while k < 64
            invariant
                k <= 64,
                pieces@.len() == k,
                forall|i: int| 0 <= i < k ==> pieces@[i] == Piece::NONE,
            decreases 64 - k,
        {
            pieces.push(Piece::NONE);
            k += 1;
        }
        proof {
            assert(pieces@ =~= empty_board());
        }
        let mut rank: i64 = 7;
        let mut file: i64 = 0;
        let mut ok = true;
        let mut i: usize = 0;
        while i < n0
            invariant
                n0 == f0@.len(),
                n0 < 0x1_0000_0000,
                i <= n0,
                place(f0@, i as int) == (pieces@, rank as int, file as int, ok),
                pieces@.len() == 64,
                7 - i <= rank <= 7,
                0 <= file <= 9 * i,
            decreases n0 - i,
        {
            let c = f0[i];
            let piece = piece_of_char(c);
            if piece != Piece::NONE {
                if ok && rank >= 0 && 0 <= rank * 8 + file && rank * 8 + file < 64
                    && pieces[(rank * 8 + file) as usize] == Piece::NONE {
                    pieces.set((rank * 8 + file) as usize, piece);
                } else {
                    ok = false;
                }
                file = file + 1;
            } else if 48 <= c && c <= 57 {
                file = file + (c - 48) as i64;
            } else if c == 47 {
                rank = rank - 1;
                file = 0;
            }
            i += 1;
        }
        if !ok {
            return false;
        }
        let mut white_kings: usize = 0;
        let mut black_kings: usize = 0;
        let mut s: usize = 0;
        while s < 64
            invariant
                s <= 64,
                pieces@ == placement(f0@),
                pieces@.len() == 64,
                white_kings <= s,
                black_kings <= s,
                white_kings == 0 ==> forall|t: int| 0 <= t < s ==> pieces@[t] != Piece::WHITE_KING,
                black_kings == 0 ==> forall|t: int| 0 <= t < s ==> pieces@[t] != Piece::BLACK_KING,
                white_kings >= 1 ==> exists|t: int| 0 <= t < s && pieces@[t] == Piece::WHITE_KING,
                black_kings >= 1 ==> exists|t: int| 0 <= t < s && pieces@[t] == Piece::BLACK_KING,
                white_kings <= 1 ==> forall|t1: int, t2: int| 0 <= t1 < s && 0 <= t2 < s && pieces@[t1] == Piece::WHITE_KING && pieces@[t2] == Piece::WHITE_KING ==> t1 == t2,
                black_kings <= 1 ==> forall|t1: int, t2: int| 0 <= t1 < s && 0 <= t2 < s && pieces@[t1] == Piece::BLACK_KING && pieces@[t2] == Piece::BLACK_KING ==> t1 == t2,
                white_kings >= 2 ==> exists|t1: int, t2: int| 0 <= t1 < s && 0 <= t2 < s && t1 != t2 && pieces@[t1] == Piece::WHITE_KING && pieces@[t2] == Piece::WHITE_KING,
                black_kings >= 2 ==> exists|t1: int, t2: int| 0 <= t1 < s && 0 <= t2 < s && t1 != t2 && pieces@[t1] == Piece::BLACK_KING && pieces@[t2] == Piece::BLACK_KING,
            decreases 64 - s,
        {
            if pieces[s] == Piece::WHITE_KING {
                white_kings += 1;
            }
            if pieces[s] == Piece::BLACK_KING {
                black_kings += 1;
            }
            s += 1;
        }
        if white_kings > 1 || black_kings > 1 {
            proof {
                if white_kings > 1 {
                    let (t1, t2) = choose|t1: int, t2: int| 0 <= t1 < 64 && 0 <= t2 < 64 && t1 != t2 && pieces@[t1] == Piece::WHITE_KING && pieces@[t2] == Piece::WHITE_KING;
                    assert(king_of(pieces@[t1], 0) && king_of(pieces@[t2], 0));
                } else {
                    let (t1, t2) = choose|t1: int, t2: int| 0 <= t1 < 64 && 0 <= t2 < 64 && t1 != t2 && pieces@[t1] == Piece::BLACK_KING && pieces@[t2] == Piece::BLACK_KING;
                    assert(king_of(pieces@[t1], 1) && king_of(pieces@[t2], 1));
                }
                assert(!kings_unique(placement(f0@)));
            }
            return false;
        }
        // En passant field.
        let f3 = &fields[3];
        if f3.len() == 1 && f3[0] == 45 {
            proof {
                assert(f3@ =~= seq![45u8]);
            }
            return true;
        }
        proof {
            assert(f3@ != seq![45u8]);
        }
        if f3.len() >= 2 && f3[0] >= 97 && 49 <= f3[1] && f3[1] <= 57 {
            let sq = (f3[1] as u64 - 49) * 8 + (f3[0] as u64 - 97);
            sq < 64
        } else {
            false
        }
    }
}

impl Default for Board {
    /// An empty board, side unset, with the standard Zobrist keys.
    fn default() -> (b: Self)
        ensures
            crate::zobrist::is_standard(b.keys),
            b.bb_ok(),
            b.king_ok(),
            b.misc_ok(),
            b.chain_ok(),
            b.pieces@ == empty_board(),
            b.side == Color::EITHER,
            b.history_ply == 0,
            b.ply == 0,
            b.fifty_move == 0,
            b.position_key == 0,
    {
        let mut history: Vec<Undo> = Vec::with_capacity(MAX_GAME_MOVES);
        let mut i: usize = 0;
        while i < MAX_GAME_MOVES
            invariant
                i <= MAX_GAME_MOVES,
                history.len() == i,
            decreases MAX_GAME_MOVES - i,
        {
            history.push(Undo::default());
            i += 1;
        }
        let mut b = Board {
            occupancies: [0u64; 3],
            bitboards: [0u64; 32],
            king_square: [0usize; 2],
            pieces: [Piece::NONE; 64],
            side: Color::EITHER,
            en_passant: None,
            fifty_move: 0,
            ply: 0,
            history_ply: 0,
            castle_permission: 0,
            position_key: 0,
            history,
            history_heuristic: [[0i16; 64]; 32],
            killers: [[None; 2]; 64],
            keys: ZobristKeys::standard(),
            past: Ghost(Seq::empty()),
        };
        b.reset_board();
        b
    }
}

/// The letter of a piece in FEN: upper case for white.
pub open spec fn piece_letter(p: Piece) -> u8 {
    match p {
        Piece::WHITE_PAWN => 80,
        Piece::BLACK_PAWN => 112,
        Piece::WHITE_KNIGHT => 78,
        Piece::BLACK_KNIGHT => 110,
        Piece::WHITE_BISHOP => 66,
        Piece::BLACK_BISHOP => 98,
        Piece::WHITE_ROOK => 82,
        Piece::BLACK_ROOK => 114,
        Piece::WHITE_QUEEN => 81,
        Piece::BLACK_QUEEN => 113,
        Piece::WHITE_KING => 75,
        Piece::BLACK_KING => 107,
        Piece::WHITE_DRAGON => 68,
        Piece::BLACK_DRAGON => 100,
        Piece::NONE => 63,
    }
}

fn letter_of(p: Piece) -> (c: u8)
    ensures
        c == piece_letter(p),
{
    match p {
        Piece::WHITE_PAWN => 80,
        Piece::BLACK_PAWN => 112,
        Piece::WHITE_KNIGHT => 78,
        Piece::BLACK_KNIGHT => 110,
        Piece::WHITE_BISHOP => 66,
        Piece::BLACK_BISHOP => 98,
        Piece::WHITE_ROOK => 82,
        Piece::BLACK_ROOK => 114,
        Piece::WHITE_QUEEN => 81,
        Piece::BLACK_QUEEN => 113,
        Piece::WHITE_KING => 75,
        Piece::BLACK_KING => 107,
        Piece::WHITE_DRAGON => 68,
        Piece::BLACK_DRAGON => 100,
        Piece::NONE => 63,
    }
}

/// The digit of a count of empty squares, when there are any.
pub open spec fn empties_text(n: int) -> Seq<u8> {
    if n > 0 {
        seq![(48 + n) as u8]
    } else {
        Seq::empty()
    }
}

/// The rest of a rank's text from file `f` on, with `empties` empty squares not yet
/// written just before it.
pub open spec fn row_text(ps: Seq<Piece>, rank: int, f: int, empties: int) -> Seq<u8>
    decreases 8 - f,
{
    if f >= 8 {
        empties_text(empties)
    } else if ps[rank * 8 + f] == Piece::NONE {
        row_text(ps, rank, f + 1, empties + 1)
    } else {
        empties_text(empties) + seq![piece_letter(ps[rank * 8 + f])] + row_text(ps, rank, f + 1, 0)
    }
}

/// The placement field from rank `rank` down to the first rank.
pub open spec fn placement_text(ps: Seq<Piece>, rank: int) -> Seq<u8>
    decreases rank,
{
    if rank <= 0 {
        row_text(ps, 0, 0, 0)
    } else {
        row_text(ps, rank, 0, 0) + seq![47u8] + placement_text(ps, rank - 1)
    }
}

/// The decimal digits of `n`.
pub open spec fn decimal(n: nat) -> Seq<u8>
    decreases n,
{
    if n < 10 {
        seq![(48 + n) as u8]
    } else {
        decimal(n / 10) + seq![(48 + n % 10) as u8]
    }
}

/// Appends the decimal digits of `n`.
pub fn push_decimal(out: &mut Vec<u8>, n: usize)
    ensures
        final(out)@ == old(out)@ + decimal(n as nat),
    decreases n,
{
    if n >= 10 {
        push_decimal(out, n / 10);
    }
    out.push(48 + (n % 10) as u8);
    proof {
        assert(out@ =~= old(out)@ + decimal(n as nat));
    }
}

/// The castling field.
pub open spec fn castle_text(c: u8) -> Seq<u8> {
    let t = (if c & WHITE_KING_CASTLE != 0 { seq![75u8] } else { Seq::empty() })
        + (if c & WHITE_QUEEN_CASTLE != 0 { seq![81u8] } else { Seq::empty() })
        + (if c & BLACK_KING_CASTLE != 0 { seq![107u8] } else { Seq::empty() })
        + (if c & BLACK_QUEEN_CASTLE != 0 { seq![113u8] } else { Seq::empty() });
    if t.len() == 0 {
        seq![45u8]
    } else {
        t
    }
}

/// Every byte of a decimal numeral is a digit.
pub proof fn lemma_decimal_digits(n: nat)
    ensures
        forall|i: int| 0 <= i < decimal(n).len() ==> 48 <= #[trigger] decimal(n)[i] <= 57,
    decreases n,
{
    if n >= 10 {
        lemma_decimal_digits(n / 10);
        let d = (48 + n % 10) as u8;
        assert(48 <= d <= 57);
        assert(decimal(n) == decimal(n / 10) + seq![d]);
    } else {
        assert(decimal(n) == seq![(48 + n) as u8]);
    }
}

/// The FEN text of a position: placement, side, castling rights, en passant square,
/// halfmove clock and move number (half the plies played, plus one).
pub open spec fn fen_text(b: Board) -> Seq<u8> {
    let side = if b.side == Color::WHITE {
        seq![119u8]
    } else if b.side == Color::BLACK {
        seq![98u8]
    } else {
        seq![45u8]
    };
    let ep = match b.en_passant {
        Some(sq) => seq![(97 + sq % 8) as u8, (49 + sq / 8) as u8],
        None => seq![45u8],
    };
    placement_text(b.pieces@, 7) + seq![32u8] + side + seq![32u8] + castle_text(b.castle_permission) + seq![32u8]
        + ep + seq![32u8] + decimal(b.fifty_move as nat) + seq![32u8] + decimal((b.history_ply / 2 + 1) as nat)
}

/// Appends the castling field.
fn push_castling(out: &mut Vec<u8>, c: u8)
    requires
        crate::text::all_ascii(old(out)@),
    ensures
        final(out)@ == old(out)@ + castle_text(c),
        crate::text::all_ascii(final(out)@),
{
    let ghost start = out@;
    let mut castling: Vec<u8> = Vec::new();
    if c & WHITE_KING_CASTLE != 0 {
        castling.push(75);
    }
    if c & WHITE_QUEEN_CASTLE != 0 {
        castling.push(81);
    }
    if c & BLACK_KING_CASTLE != 0 {
        castling.push(107);
    }
    if c & BLACK_QUEEN_CASTLE != 0 {
        castling.push(113);
    }
    proof {
        let t = (if c & WHITE_KING_CASTLE != 0 { seq![75u8] } else { Seq::empty() })
            + (if c & WHITE_QUEEN_CASTLE != 0 { seq![81u8] } else { Seq::empty() })
            + (if c & BLACK_KING_CASTLE != 0 { seq![107u8] } else { Seq::empty() })
            + (if c & BLACK_QUEEN_CASTLE != 0 { seq![113u8] } else { Seq::empty() });
        assert(castling@ =~= t);
        assert(crate::text::all_ascii(castling@));
    }
    if castling.len() == 0 {
        out.push(45);
    } else {
        out.append(&mut castling);
    }
}

/// Appends a decimal numeral, keeping the text ASCII.
fn push_ascii_decimal(out: &mut Vec<u8>, n: usize)
    requires
        crate::text::all_ascii(old(out)@),
    ensures
        final(out)@ == old(out)@ + decimal(n as nat),
        crate::text::all_ascii(final(out)@),
{
    proof {
        lemma_decimal_digits(n as nat);
    }
    push_decimal(out, n);
}

impl Board {
    /// Appends the placement field, rank eight first.
    fn push_placement(&self, out: &mut Vec<u8>)
        requires
            crate::text::all_ascii(old(out)@),
        ensures
            final(out)@ == old(out)@ + placement_text(self.pieces@, 7),
            crate::text::all_ascii(final(out)@),
    {
        let ghost start = out@;
        let ghost ps = self.pieces@;
        let mut rank: usize = 8;
        while rank > 0
            invariant
                rank <= 8,
                ps == self.pieces@,
                out@ + (if rank > 0 { placement_text(ps, rank - 1) } else { Seq::empty() }) == start + placement_text(ps, 7),
                crate::text::all_ascii(out@),
            decreases rank,
        {
            rank -= 1;
            let ghost before = out@;
            let mut empty_squares: usize = 0;
            let mut file: usize = 0;
            while file < 8
                invariant
                    rank < 8,
                    file <= 8,
                    empty_squares <= file,
                    ps == self.pieces@,
                    out@ + row_text(ps, rank as int, file as int, empty_squares as int) == before + row_text(ps, rank as int, 0, 0),
                    crate::text::all_ascii(out@),
                decreases 8 - file,
            {
                let square = rank * 8 + file;
                let piece = self.pieces[square];
                let ghost prev = out@;
                let ghost e = empty_squares as int;
                if piece == Piece::NONE {
                    empty_squares += 1;
                } else {
                    if empty_squares > 0 {
                        out.push(48 + empty_squares as u8);
                        empty_squares = 0;
                    }
                    out.push(letter_of(piece));
                    proof {
                        assert(out@ =~= prev + empties_text(e) + seq![piece_letter(ps[rank * 8 + file])]);
                    }
                }
                file += 1;
            }
            let ghost row_done = out@;
            if empty_squares > 0 {
                out.push(48 + empty_squares as u8);
            }
            proof {
                assert(out@ =~= row_done + empties_text(empty_squares as int));
                assert(out@ == before + row_text(ps, rank as int, 0, 0));
            }
            if rank > 0 {
                out.push(47);
            }
            proof {
                assert(out@ + (if rank > 0 { placement_text(ps, rank - 1) } else { Seq::empty() }) =~= before + placement_text(ps, rank as int));
            }
        }
    }

    /// The position in Forsyth-Edwards Notation.
    pub fn get_fen(&self) -> (fen: String)
        requires
            self.history_ply < MAX_GAME_MOVES * 2,
            self.en_passant matches Some(e) ==> e < 64,
        ensures
            fen@ == crate::text::ascii_chars(fen_text(*self)),
    {
        let mut out: Vec<u8> = Vec::new();
        self.push_placement(&mut out);
        let ghost placed = out@;
        out.push(32);
        out.push(if self.side == Color::WHITE { 119 } else if self.side == Color::BLACK { 98 } else { 45 });
        out.push(32);
        let ghost sided = out@;
        push_castling(&mut out, self.castle_permission);
        let ghost castled = out@;
        out.push(32);
        match self.en_passant {
            Some(sq) => {
                out.push(97 + sq % 8);
                out.push(49 + sq / 8);
            },
            None => out.push(45),
        }
        out.push(32);
        let ghost before_numbers = out@;
        push_ascii_decimal(&mut out, self.fifty_move as usize);
        out.push(32);
        push_ascii_decimal(&mut out, self.history_ply / 2 + 1);
        proof {
            let side = if self.side == Color::WHITE {
                seq![119u8]
            } else if self.side == Color::BLACK {
                seq![98u8]
            } else {
                seq![45u8]
            };
            let ep = match self.en_passant {
                Some(sq) => seq![(97 + sq % 8) as u8, (49 + sq / 8) as u8],
                None => seq![45u8],
            };
            assert(sided =~= placed + seq![32u8] + side + seq![32u8]);
            assert(before_numbers =~= castled + seq![32u8] + ep + seq![32u8]);
            assert(out@ =~= before_numbers + decimal(self.fifty_move as nat) + seq![32u8]
                + decimal((self.history_ply / 2 + 1) as nat));
            assert(out@ =~= fen_text(*self));
        }
        crate::text::ascii_string(out)
    }
}

/// One step of reading the placement field.
pub open spec fn place_step(st: (Seq<Piece>, int, int, bool), c: u8) -> (Seq<Piece>, int, int, bool) {
    let (ps, rank, file, ok) = st;
    let p = char_piece(c);
    if p != Piece::NONE {
        let sq = rank * 8 + file;
        if ok && rank >= 0 && 0 <= sq < 64 && ps[sq] == Piece::NONE {
            (ps.update(sq, p), rank, file + 1, true)
        } else {
            (ps, rank, file + 1, false)
        }
    } else if 48 <= c && c <= 57 {
        (ps, rank, file + (c - 48), ok)
    } else if c == 47 {
        (ps, rank - 1, 0, ok)
    } else {
        (ps, rank, file, ok)
    }
}

/// Reading the first `n` characters of `f` from the state `st`.
pub open spec fn place_from(st: (Seq<Piece>, int, int, bool), f: Seq<u8>, n: int) -> (Seq<Piece>, int, int, bool)
    decreases n,
{
    if n <= 0 {
        st
    } else {
        place_step(place_from(st, f, n - 1), f[n - 1])
    }
}

proof fn lemma_place_is_fold(f: Seq<u8>, n: int)
    requires
        0 <= n <= f.len(),
    ensures
        place(f, n) == place_from((empty_board(), 7, 0, true), f, n),
    decreases n,
{
    if n > 0 {
        lemma_place_is_fold(f, n - 1);
    }
}

/// Reading text made of two parts reads the first, then the second.
proof fn lemma_place_concat(st: (Seq<Piece>, int, int, bool), a: Seq<u8>, b: Seq<u8>, k: int)
    requires
        0 <= k <= b.len(),
    ensures
        place_from(st, a + b, a.len() + k) == place_from(place_from(st, a, a.len() as int), b, k),
    decreases k,
{
    if k == 0 {
        lemma_place_prefix(st, a, a + b, a.len() as int);
    } else {
        lemma_place_concat(st, a, b, k - 1);
        assert((a + b)[a.len() + k - 1] == b[k - 1]);
    }
}

/// Reading depends only on the characters read.
proof fn lemma_place_prefix(st: (Seq<Piece>, int, int, bool), a: Seq<u8>, b: Seq<u8>, n: int)
    requires
        0 <= n <= a.len(),
        n <= b.len(),
        forall|i: int| 0 <= i < n ==> a[i] == b[i],
    ensures
        place_from(st, a, n) == place_from(st, b, n),
    decreases n,
{
    if n > 0 {
        lemma_place_prefix(st, a, b, n - 1);
    }
}

/// Every piece's FEN letter reads back as the piece.
proof fn lemma_letter_reads_back(p: Piece)
    requires
        p != Piece::NONE,
    ensures
        char_piece(piece_letter(p)) == p,
        !(48 <= piece_letter(p) <= 57),
        piece_letter(p) != 47,
{
}

/// The squares of `acc`, with the pieces of `ps` on rank `r` from file `from` on put in.
pub open spec fn fill_row(acc: Seq<Piece>, ps: Seq<Piece>, r: int, from: int) -> Seq<Piece> {
    Seq::new(64, |i: int| if r * 8 + from <= i < r * 8 + 8 && ps[i] != Piece::NONE { ps[i] } else { acc[i] })
}

/// Reading the count of empty squares moves along the rank.
proof fn lemma_read_empties(acc: Seq<Piece>, r: int, file: int, e: int)
    requires
        0 <= e <= 8,
    ensures
        place_from((acc, r, file, true), empties_text(e), empties_text(e).len() as int) == (acc, r, file + e, true),
{
    let st = (acc, r, file, true);
    let t = empties_text(e);
    assert(place_from(st, t, 0) == st);
    if e > 0 {
        let c = (48 + e) as u8;
        assert(t[0] == c);
        assert(c - 48 == e);
        assert(char_piece(c) == Piece::NONE);
        assert(place_from(st, t, 1) == place_step(st, c));
    }
}

/// Reading back the text of rank `r` from file `f` on, `e` empty squares before it not
/// yet written, puts that rank's pieces in.
proof fn lemma_row_reads_back(acc: Seq<Piece>, ps: Seq<Piece>, r: int, f: int, e: int)
    requires
        0 <= r < 8,
        0 <= e <= f <= 8,
        acc.len() == 64,
        ps.len() == 64,
        forall|j: int| f - e <= j < 8 ==> #[trigger] acc[r * 8 + j] == Piece::NONE,
        forall|j: int| f - e <= j < f ==> #[trigger] ps[r * 8 + j] == Piece::NONE,
    ensures
        place_from((acc, r, f - e, true), row_text(ps, r, f, e), row_text(ps, r, f, e).len() as int)
            == (fill_row(acc, ps, r, f - e), r, 8int, true),
    decreases 8 - f,
{
    let text = row_text(ps, r, f, e);
    if f >= 8 {
        lemma_read_empties(acc, r, f - e, e);
        assert forall|i: int| 0 <= i < 64 implies #[trigger] fill_row(acc, ps, r, f - e)[i] == acc[i] by {
            if r * 8 + f - e <= i < r * 8 + 8 {
                assert(ps[r * 8 + (i - r * 8)] == Piece::NONE);
            }
        }
        assert(fill_row(acc, ps, r, f - e) =~= acc);
    } else if ps[r * 8 + f] == Piece::NONE {
        lemma_row_reads_back(acc, ps, r, f + 1, e + 1);
    } else {
        let p = ps[r * 8 + f];
        let ee = empties_text(e);
        let lb = seq![piece_letter(p)];
        let rest = row_text(ps, r, f + 1, 0);
        assert(text == ee + lb + rest);
        let st = (acc, r, f - e, true);
        lemma_place_concat(st, ee + lb, rest, rest.len() as int);
        lemma_place_concat(st, ee, lb, 1);
        lemma_read_empties(acc, r, f - e, e);
        lemma_letter_reads_back(p);
        assert(acc[r * 8 + f] == Piece::NONE);
        let acc2 = acc.update(r * 8 + f, p);
        let mid = place_from(st, ee, ee.len() as int);
        assert(mid == (acc, r, f, true));
        assert(place_from(mid, lb, 0) == mid);
        assert(lb[0] == piece_letter(p));
        assert(place_from(mid, lb, 1) == place_step(mid, piece_letter(p)));
        assert(place_from(mid, lb, 1) == (acc2, r, f + 1, true));
        assert(ee + lb + rest =~= text);
        assert(forall|j: int| f + 1 <= j < 8 ==> #[trigger] acc2[r * 8 + j] == acc[r * 8 + j]);
        lemma_row_reads_back(acc2, ps, r, f + 1, 0);
        assert forall|i: int| 0 <= i < 64 implies #[trigger] fill_row(acc2, ps, r, f + 1)[i] == fill_row(acc, ps, r, f - e)[i] by {
            if r * 8 + f - e <= i < r * 8 + f {
                assert(ps[r * 8 + (i - r * 8)] == Piece::NONE);
            }
        }
        assert(fill_row(acc2, ps, r, f + 1) =~= fill_row(acc, ps, r, f - e));
    }
}

/// The squares of `acc`, with the pieces of `ps` on the ranks up to `rank` put in.
pub open spec fn fill_ranks(acc: Seq<Piece>, ps: Seq<Piece>, rank: int) -> Seq<Piece> {
    Seq::new(64, |i: int| if i < (rank + 1) * 8 && ps[i] != Piece::NONE { ps[i] } else { acc[i] })
}

/// Reading back the placement text from rank `rank` down puts those ranks' pieces in.
proof fn lemma_ranks_read_back(acc: Seq<Piece>, ps: Seq<Piece>, rank: int)
    requires
        0 <= rank < 8,
        acc.len() == 64,
        ps.len() == 64,
        forall|i: int| 0 <= i < (rank + 1) * 8 ==> #[trigger] acc[i] == Piece::NONE,
    ensures
        place_from((acc, rank, 0, true), placement_text(ps, rank), placement_text(ps, rank).len() as int)
            == (fill_ranks(acc, ps, rank), 0int, 8int, true),
    decreases rank,
{
    let row = row_text(ps, rank, 0, 0);
    let st = (acc, rank, 0int, true);
    assert forall|j: int| 0 <= j < 8 implies #[trigger] acc[rank * 8 + j] == Piece::NONE by {
        assert(0 <= rank * 8 + j < (rank + 1) * 8);
    }
    lemma_row_reads_back(acc, ps, rank, 0, 0);
    let acc1 = fill_row(acc, ps, rank, 0);
    if rank == 0 {
        assert(fill_row(acc, ps, 0, 0) =~= fill_ranks(acc, ps, 0));
    } else {
        let below = placement_text(ps, rank - 1);
        let slash = seq![47u8];
        assert(placement_text(ps, rank) == row + slash + below);
        lemma_place_concat(st, row + slash, below, below.len() as int);
        lemma_place_concat(st, row, slash, 1);
        let mid = (acc1, rank, 8int, true);
        assert(place_from(mid, slash, 0) == mid);
        assert(char_piece(47u8) == Piece::NONE);
        assert(place_from(mid, slash, 1) == place_step(mid, 47u8));
        assert(place_from(mid, slash, 1) == (acc1, rank - 1, 0int, true));
        assert forall|i: int| 0 <= i < rank * 8 implies #[trigger] acc1[i] == Piece::NONE by {
            assert(acc[i] == Piece::NONE);
        }
        lemma_ranks_read_back(acc1, ps, rank - 1);
        assert(fill_ranks(acc1, ps, rank - 1) =~= fill_ranks(acc, ps, rank));
    }
}

/// Reading back the placement text of a board gives its squares.
pub proof fn lemma_placement_reads_back(ps: Seq<Piece>)
    requires
        ps.len() == 64,
    ensures
        placement(placement_text(ps, 7)) == ps,
        place(placement_text(ps, 7), placement_text(ps, 7).len() as int).3,
{
    let text = placement_text(ps, 7);
    lemma_place_is_fold(text, text.len() as int);
    lemma_ranks_read_back(empty_board(), ps, 7);
    assert(fill_ranks(empty_board(), ps, 7) =~= ps);
}

/// Splitting depends only on the characters split.
proof fn lemma_split_prefix(a: Seq<u8>, b: Seq<u8>, n: int)
    requires
        0 <= n <= a.len(),
        n <= b.len(),
        forall|i: int| 0 <= i < n ==> a[i] == b[i],
    ensures
        split_state(a, n) == split_state(b, n),
    decreases n,
{
    if n > 0 {
        lemma_split_prefix(a, b, n - 1);
    }
}

/// Text without whitespace extends the field being read.
proof fn lemma_split_extend(s: Seq<u8>, t: Seq<u8>, k: int)
    requires
        0 <= k <= t.len(),
        forall|i: int| 0 <= i < t.len() ==> !is_ws(#[trigger] t[i]),
    ensures
        split_state(s + t, s.len() + k) == (split_state(s, s.len() as int).0, split_state(s, s.len() as int).1 + t.take(k)),
    decreases k,
{
    if k == 0 {
        lemma_split_prefix(s, s + t, s.len() as int);
        assert(split_state(s, s.len() as int).1 + t.take(0) =~= split_state(s, s.len() as int).1);
    } else {
        lemma_split_extend(s, t, k - 1);
        assert((s + t)[s.len() + k - 1] == t[k - 1]);
        assert(!is_ws(t[k - 1]));
        assert((split_state(s, s.len() as int).1 + t.take(k - 1)).push(t[k - 1]) =~= split_state(s, s.len() as int).1 + t.take(k));
    }
}

/// A space ends the field being read.
proof fn lemma_split_space(s: Seq<u8>)
    requires
        split_state(s, s.len() as int).1.len() > 0,
    ensures
        split_state(s.push(32u8), s.len() + 1int) == (split_state(s, s.len() as int).0.push(split_state(s, s.len() as int).1), Seq::<u8>::empty()),
{
    lemma_split_prefix(s, s.push(32u8), s.len() as int);
}

/// Text of non-empty fields without whitespace, each after the first preceded by one
/// space, splits into those fields.
proof fn lemma_split_fields(a: Seq<u8>, b: Seq<u8>, c: Seq<u8>, d: Seq<u8>, e: Seq<u8>, f: Seq<u8>)
    requires
        a.len() > 0 && b.len() > 0 && c.len() > 0 && d.len() > 0 && e.len() > 0 && f.len() > 0,
        forall|i: int| 0 <= i < a.len() ==> !is_ws(#[trigger] a[i]),
        forall|i: int| 0 <= i < b.len() ==> !is_ws(#[trigger] b[i]),
        forall|i: int| 0 <= i < c.len() ==> !is_ws(#[trigger] c[i]),
        forall|i: int| 0 <= i < d.len() ==> !is_ws(#[trigger] d[i]),
        forall|i: int| 0 <= i < e.len() ==> !is_ws(#[trigger] e[i]),
        forall|i: int| 0 <= i < f.len() ==> !is_ws(#[trigger] f[i]),
    ensures
        fen_fields(a + seq![32u8] + b + seq![32u8] + c + seq![32u8] + d + seq![32u8] + e + seq![32u8] + f)
            == seq![a, b, c, d, e, f],
{
    let sp = seq![32u8];
    let e0 = Seq::<u8>::empty();
    lemma_split_extend(e0, a, a.len() as int);
    assert(e0 + a =~= a);
    assert(a.take(a.len() as int) =~= a);
    let s1 = a;
    assert(split_state(s1, s1.len() as int) == (Seq::<Seq<u8>>::empty(), a));
    lemma_split_space(s1);
    assert(s1.push(32u8) =~= a + sp);
    let s2 = a + sp;
    lemma_split_extend(s2, b, b.len() as int);
    assert(b.take(b.len() as int) =~= b);
    let s3 = s2 + b;
    lemma_split_space(s3);
    assert(s3.push(32u8) =~= s3 + sp);
    let s4 = s3 + sp;
    lemma_split_extend(s4, c, c.len() as int);
    assert(c.take(c.len() as int) =~= c);
    let s5 = s4 + c;
    lemma_split_space(s5);
    assert(s5.push(32u8) =~= s5 + sp);
    let s6 = s5 + sp;
    lemma_split_extend(s6, d, d.len() as int);
    assert(d.take(d.len() as int) =~= d);
    let s7 = s6 + d;
    lemma_split_space(s7);
    assert(s7.push(32u8) =~= s7 + sp);
    let s8 = s7 + sp;
    lemma_split_extend(s8, e, e.len() as int);
    assert(e.take(e.len() as int) =~= e);
    let s9 = s8 + e;
    lemma_split_space(s9);
    assert(s9.push(32u8) =~= s9 + sp);
    let s10 = s9 + sp;
    lemma_split_extend(s10, f, f.len() as int);
    assert(f.take(f.len() as int) =~= f);
    let s11 = s10 + f;
    assert(split_state(s11, s11.len() as int) == (seq![a, b, c, d, e], f)) by {
        assert(Seq::<Seq<u8>>::empty().push(a).push(b).push(c).push(d).push(e) =~= seq![a, b, c, d, e]);
        assert(Seq::<u8>::empty() + f =~= f);
        assert(Seq::<u8>::empty() + e =~= e);
        assert(Seq::<u8>::empty() + d =~= d);
        assert(Seq::<u8>::empty() + c =~= c);
        assert(Seq::<u8>::empty() + b =~= b);
    }
    assert(seq![a, b, c, d, e].push(f) =~= seq![a, b, c, d, e, f]);
}

/// A rank's text holds no whitespace, and is not empty while squares or empty squares
/// are left to write.
proof fn lemma_row_chars(ps: Seq<Piece>, r: int, f: int, e: int)
    requires
        0 <= e <= f <= 8,
    ensures
        forall|i: int| 0 <= i < row_text(ps, r, f, e).len() ==> !is_ws(#[trigger] row_text(ps, r, f, e)[i]),
        (f < 8 || e > 0) ==> row_text(ps, r, f, e).len() > 0,
    decreases 8 - f,
{
    if f < 8 {
        if ps[r * 8 + f] == Piece::NONE {
            lemma_row_chars(ps, r, f + 1, e + 1);
        } else {
            lemma_row_chars(ps, r, f + 1, 0);
            let t = empties_text(e) + seq![piece_letter(ps[r * 8 + f])] + row_text(ps, r, f + 1, 0);
            assert(row_text(ps, r, f, e) == t);
            assert forall|i: int| 0 <= i < t.len() implies !is_ws(#[trigger] t[i]) by {
                if i >= empties_text(e).len() + 1 {
                    assert(t[i] == row_text(ps, r, f + 1, 0)[i - empties_text(e).len() - 1]);
                }
            }
        }
    }
}

/// The placement text holds no whitespace and is not empty.
proof fn lemma_placement_chars(ps: Seq<Piece>, rank: int)
    requires
        0 <= rank < 8,
    ensures
        forall|i: int| 0 <= i < placement_text(ps, rank).len() ==> !is_ws(#[trigger] placement_text(ps, rank)[i]),
        placement_text(ps, rank).len() > 0,
    decreases rank,
{
    lemma_row_chars(ps, rank, 0, 0);
    if rank > 0 {
        lemma_placement_chars(ps, rank - 1);
        let row = row_text(ps, rank, 0, 0);
        let t = row + seq![47u8] + placement_text(ps, rank - 1);
        assert(placement_text(ps, rank) == t);
        assert forall|i: int| 0 <= i < t.len() implies !is_ws(#[trigger] t[i]) by {
            if i < row.len() {
                assert(t[i] == row[i]);
            } else if i > row.len() {
                assert(t[i] == placement_text(ps, rank - 1)[i - row.len() - 1]);
            }
        }
    }
}

/// Or-ing nothing in changes nothing.
proof fn lemma_or_zero(x: u8)
    ensures
        x | 0u8 == x,
{
    assert(x | 0u8 == x) by (bit_vector);
}

/// Castling rights are the union of the rights they hold.
proof fn lemma_castle_bits(c: u8)
    requires
        c < 16,
    ensures
        c == (((0u8 | (if c & 1u8 != 0 { 1u8 } else { 0u8 })) | (if c & 2u8 != 0 { 2u8 } else { 0u8 }))
            | (if c & 4u8 != 0 { 4u8 } else { 0u8 })) | (if c & 8u8 != 0 { 8u8 } else { 0u8 }),
{
    assert(c < 16 ==> c == (((0u8 | (if c & 1u8 != 0 { 1u8 } else { 0u8 })) | (if c & 2u8 != 0 { 2u8 } else { 0u8 }))
        | (if c & 4u8 != 0 { 4u8 } else { 0u8 })) | (if c & 8u8 != 0 { 8u8 } else { 0u8 })) by (bit_vector);
}

/// Reading the castling field one more character.
proof fn lemma_castle_push(s: Seq<u8>, ch: u8)
    ensures
        castle_state(s.push(ch), s.len() + 1int) == ({
            let (c, stop) = castle_state(s, s.len() as int);
            if stop {
                (c, true)
            } else if ch == 75 {
                (c | WHITE_KING_CASTLE, false)
            } else if ch == 81 {
                (c | WHITE_QUEEN_CASTLE, false)
            } else if ch == 107 {
                (c | BLACK_KING_CASTLE, false)
            } else if ch == 113 {
                (c | BLACK_QUEEN_CASTLE, false)
            } else if ch == 45 {
                (c, true)
            } else {
                (c, false)
            }
        }),
{
    lemma_castle_prefix(s, s.push(ch), s.len() as int);
}

proof fn lemma_castle_prefix(a: Seq<u8>, b: Seq<u8>, n: int)
    requires
        0 <= n <= a.len(),
        n <= b.len(),
        forall|i: int| 0 <= i < n ==> a[i] == b[i],
    ensures
        castle_state(a, n) == castle_state(b, n),
    decreases n,
{
    if n > 0 {
        lemma_castle_prefix(a, b, n - 1);
    }
}

/// Reading back the castling field gives the rights.
proof fn lemma_castle_reads_back(c: u8)
    requires
        c < 16,
    ensures
        castle_state(castle_text(c), castle_text(c).len() as int).0 == c,
        castle_text(c).len() > 0,
        forall|i: int| 0 <= i < castle_text(c).len() ==> !is_ws(#[trigger] castle_text(c)[i]),
{
    lemma_castle_bits(c);
    let x1 = if c & 1u8 != 0 { 1u8 } else { 0u8 };
    let x2 = if c & 2u8 != 0 { 2u8 } else { 0u8 };
    let x4 = if c & 4u8 != 0 { 4u8 } else { 0u8 };
    let x8 = if c & 8u8 != 0 { 8u8 } else { 0u8 };
    let t0 = Seq::<u8>::empty();
    let t1 = if c & WHITE_KING_CASTLE != 0 { t0.push(75u8) } else { t0 };
    let t2 = if c & WHITE_QUEEN_CASTLE != 0 { t1.push(81u8) } else { t1 };
    let t3 = if c & BLACK_KING_CASTLE != 0 { t2.push(107u8) } else { t2 };
    let t4 = if c & BLACK_QUEEN_CASTLE != 0 { t3.push(113u8) } else { t3 };
    assert(castle_state(t0, 0) == (0u8, false));
    let v0 = 0u8;
    lemma_or_zero(v0);
    if c & WHITE_KING_CASTLE != 0 {
        lemma_castle_push(t0, 75u8);
    }
    let v1 = v0 | x1;
    assert(castle_state(t1, t1.len() as int) == (v1, false));
    lemma_or_zero(v1);
    if c & WHITE_QUEEN_CASTLE != 0 {
        lemma_castle_push(t1, 81u8);
    }
    let v2 = v1 | x2;
    assert(castle_state(t2, t2.len() as int) == (v2, false));
    lemma_or_zero(v2);
    if c & BLACK_KING_CASTLE != 0 {
        lemma_castle_push(t2, 107u8);
    }
    let v3 = v2 | x4;
    assert(castle_state(t3, t3.len() as int) == (v3, false));
    lemma_or_zero(v3);
    if c & BLACK_QUEEN_CASTLE != 0 {
        lemma_castle_push(t3, 113u8);
    }
    let v4 = v3 | x8;
    assert(castle_state(t4, t4.len() as int) == (v4, false));
    let t = (if c & WHITE_KING_CASTLE != 0 { seq![75u8] } else { Seq::empty() })
        + (if c & WHITE_QUEEN_CASTLE != 0 { seq![81u8] } else { Seq::empty() })
        + (if c & BLACK_KING_CASTLE != 0 { seq![107u8] } else { Seq::empty() })
        + (if c & BLACK_QUEEN_CASTLE != 0 { seq![113u8] } else { Seq::empty() });
    assert(t =~= t4);
    if t.len() == 0 {
        assert(castle_text(c) =~= seq![45u8]);
        assert(castle_state(seq![45u8], 0) == (0u8, false));
        assert(castle_state(seq![45u8], 1) == (0u8, true));
        lemma_or_zero(0u8);
    }
}

/// Reading back the FEN text of a position gives its pieces, side to move, castling
/// rights and en passant square: printing a position and parsing it again loses only
/// the counters, which parsing starts afresh.
pub proof fn lemma_fen_reads_back(b: Board)
    requires
        b.side == Color::WHITE || b.side == Color::BLACK,
        b.castle_permission < 16,
        b.en_passant matches Some(e) ==> e < 64,
        kings_unique(b.pieces@),
    ensures
        fen_ok(fen_text(b)),
        ({
            let fs = fen_fields(fen_text(b));
            &&& placement(fs[0]) == b.pieces@
            &&& side_of_field(fs[1]) == b.side
            &&& castle_state(fs[2], fs[2].len() as int).0 == b.castle_permission
            &&& ep_of_field(fs[3]) == b.en_passant
        }),
{
    let ps = b.pieces@;
    let pl = placement_text(ps, 7);
    let side = if b.side == Color::WHITE { seq![119u8] } else { seq![98u8] };
    let ct = castle_text(b.castle_permission);
    let ep = match b.en_passant {
        Some(sq) => seq![(97 + sq % 8) as u8, (49 + sq / 8) as u8],
        None => seq![45u8],
    };
    let d1 = decimal(b.fifty_move as nat);
    let d2 = decimal((b.history_ply / 2 + 1) as nat);
    lemma_placement_chars(ps, 7);
    lemma_castle_reads_back(b.castle_permission);
    lemma_decimal_digits(b.fifty_move as nat);
    lemma_decimal_digits((b.history_ply / 2 + 1) as nat);
    assert(d1.len() > 0 && d2.len() > 0);
    assert(forall|i: int| 0 <= i < d1.len() ==> !is_ws(#[trigger] d1[i]));
    assert(forall|i: int| 0 <= i < d2.len() ==> !is_ws(#[trigger] d2[i]));
    assert(forall|i: int| 0 <= i < ep.len() ==> !is_ws(#[trigger] ep[i]));
    assert(forall|i: int| 0 <= i < side.len() ==> !is_ws(#[trigger] side[i]));
    lemma_split_fields(pl, side, ct, ep, d1, d2);
    assert(fen_text(b) == pl + seq![32u8] + side + seq![32u8] + ct + seq![32u8] + ep + seq![32u8] + d1 + seq![32u8] + d2);
    let fs = fen_fields(fen_text(b));
    assert(fs == seq![pl, side, ct, ep, d1, d2]);
    lemma_placement_reads_back(ps);
    assert(fs[1] == side);
    if b.side == Color::BLACK {
        assert(side != seq![119u8]) by {
            assert(side[0] != seq![119u8][0]);
        }
    }
    assert(side_of_field(fs[1]) == b.side);
    match b.en_passant {
        Some(sq) => {
            assert(ep != seq![45u8]);
            assert(ep_field_ok(ep));
            assert(ep_of_field(ep) == b.en_passant);
        },
        None => {},
    }
}

} // verus!
