//! Which squares pieces attack: leapers by offsets, sliders by walking rays until the
//! first occupied square, and whether a square is attacked in a position.
use vstd::prelude::*;
use crate::bits::{bit, lemma_bit_or, lemma_bit_and, lemma_bit_not, lemma_bit_single, lemma_bit_zero, lemma_zero_iff_no_bits, lemma_bits_ext, lsb, lemma_lsb, lowest_square};
use crate::board::Board;
use crate::defs::{Color, Piece, PieceType};

verus! {

pub open spec fn sq_file(s: int) -> int {
    s % 8
}

pub open spec fn sq_rank(s: int) -> int {
    s / 8
}

pub open spec fn on_board(f: int, r: int) -> bool {
    0 <= f < 8 && 0 <= r < 8
}

/// `to` is the square `df` files and `dr` ranks away from `from`.
pub open spec fn leap(from: int, to: int, df: int, dr: int) -> bool {
    &&& 0 <= to < 64
    &&& sq_file(to) == sq_file(from) + df
    &&& sq_rank(to) == sq_rank(from) + dr
}

pub open spec fn knight_move(from: int, to: int) -> bool {
    ||| leap(from, to, 1, 2)
    ||| leap(from, to, 1, -2)
    ||| leap(from, to, -1, 2)
    ||| leap(from, to, -1, -2)
    ||| leap(from, to, 2, 1)
    ||| leap(from, to, 2, -1)
    ||| leap(from, to, -2, 1)
    ||| leap(from, to, -2, -1)
}

pub open spec fn king_move(from: int, to: int) -> bool {
    ||| leap(from, to, 1, 1)
    ||| leap(from, to, 1, 0)
    ||| leap(from, to, 1, -1)
    ||| leap(from, to, 0, 1)
    ||| leap(from, to, 0, -1)
    ||| leap(from, to, -1, 1)
    ||| leap(from, to, -1, 0)
    ||| leap(from, to, -1, -1)
}

/// The squares a pawn standing on `from` attacks: diagonally forward (up the board
/// for white, down for black).
pub open spec fn pawn_capture(white: bool, from: int, to: int) -> bool {
    if white {
        leap(from, to, -1, 1) || leap(from, to, 1, 1)
    } else {
        leap(from, to, -1, -1) || leap(from, to, 1, -1)
    }
}

/// `j` times a direction component in {-1, 0, 1}.
pub open spec fn scale(j: int, d: int) -> int {
    if d == 1 {
        j
    } else if d == -1 {
        -j
    } else {
        0
    }
}

pub open spec fn dir_ok(df: int, dr: int) -> bool {
    &&& -1 <= df <= 1
    &&& -1 <= dr <= 1
    &&& !(df == 0 && dr == 0)
}

/// The square `j` steps from `from` along (df, dr), by its file and rank.
pub open spec fn step(from: int, df: int, dr: int, j: int) -> int {
    (sq_rank(from) + scale(j, dr)) * 8 + sq_file(from) + scale(j, df)
}

/// How many steps along (df, dr) lead from `from` to `to`; 0 when `to` is not on that ray.
pub open spec fn ray_steps(from: int, to: int, df: int, dr: int) -> int {
    let dfile = sq_file(to) - sq_file(from);
    let drank = sq_rank(to) - sq_rank(from);
    let k = if df != 0 {
        scale(dfile, df)
    } else {
        scale(drank, dr)
    };
    if 0 <= to < 64 && k >= 1 && dfile == scale(k, df) && drank == scale(k, dr) {
        k
    } else {
        0
    }
}

/// A slider on `from` moving along (df, dr) reaches `to`: it lies on the ray and every
/// square before it is empty in `occ`.
pub open spec fn slides(occ: u64, from: int, to: int, df: int, dr: int) -> bool {
    let k = ray_steps(from, to, df, dr);
    &&& k >= 1
    &&& forall|j: int| 1 <= j < k ==> !bit(occ, #[trigger] step(from, df, dr, j))
}

pub open spec fn rook_sees(occ: u64, from: int, to: int) -> bool {
    ||| slides(occ, from, to, 0, 1)
    ||| slides(occ, from, to, 0, -1)
    ||| slides(occ, from, to, 1, 0)
    ||| slides(occ, from, to, -1, 0)
}

pub open spec fn bishop_sees(occ: u64, from: int, to: int) -> bool {
    ||| slides(occ, from, to, 1, 1)
    ||| slides(occ, from, to, 1, -1)
    ||| slides(occ, from, to, -1, 1)
    ||| slides(occ, from, to, -1, -1)
}

proof fn lemma_sq_coords(f: int, r: int)
    requires
        on_board(f, r),
    ensures
        0 <= r * 8 + f < 64,
        sq_file(r * 8 + f) == f,
        sq_rank(r * 8 + f) == r,
{
}

proof fn lemma_step_on_board(from: int, df: int, dr: int, j: int)
    requires
        0 <= from < 64,
        dir_ok(df, dr),
        j >= 1,
        on_board(sq_file(from) + scale(j, df), sq_rank(from) + scale(j, dr)),
    ensures
        0 <= step(from, df, dr, j) < 64,
        sq_file(step(from, df, dr, j)) == sq_file(from) + scale(j, df),
        sq_rank(step(from, df, dr, j)) == sq_rank(from) + scale(j, dr),
        ray_steps(from, step(from, df, dr, j), df, dr) == j,
{
    lemma_sq_coords(sq_file(from) + scale(j, df), sq_rank(from) + scale(j, dr));
}

proof fn lemma_ray_target(from: int, t: int, df: int, dr: int)
    requires
        0 <= from < 64,
        dir_ok(df, dr),
        ray_steps(from, t, df, dr) >= 1,
    ensures
        t == step(from, df, dr, ray_steps(from, t, df, dr)),
        forall|j: int|
            1 <= j <= ray_steps(from, t, df, dr) ==> on_board(
                sq_file(from) + scale(j, df),
                sq_rank(from) + scale(j, dr),
            ),
{
}

/// Adds the square `df` files and `dr` ranks from `from` to `bb`, when it is on the board.
fn add_leap(bb: u64, from: usize, df: i64, dr: i64) -> (r: u64)
    requires
        from < 64,
        -2 <= df <= 2,
        -2 <= dr <= 2,
    ensures
        forall|t: int| 0 <= t < 64 ==> bit(r, t) == (bit(bb, t) || leap(from as int, t, df as int, dr as int)),
{
    let f: i64 = (from % 8) as i64 + df;
    let r: i64 = (from / 8) as i64 + dr;
    if 0 <= f && f < 8 && 0 <= r && r < 8 {
        let t = (r * 8 + f) as usize;
        proof {
            lemma_sq_coords(f as int, r as int);
            assert forall|x: int| 0 <= x < 64 implies bit(bb | (1u64 << t as u64), x) == (bit(bb, x)
                || leap(from as int, x, df as int, dr as int)) by {
                lemma_bit_or(bb, 1u64 << t as u64, x as u64);
                lemma_bit_single(t as u64, x as u64);
                if leap(from as int, x, df as int, dr as int) {
                    assert(x == sq_rank(x) * 8 + sq_file(x));
                }
            }
        }
        bb | (1u64 << t)
    } else {
        proof {
            assert forall|x: int| 0 <= x < 64 implies !leap(from as int, x, df as int, dr as int) by {
            }
        }
        bb
    }
}

/// Squares a knight on `square` attacks.
pub fn knight_attacks(square: usize) -> (r: u64)
    requires
        square < 64,
    ensures
        forall|t: int| 0 <= t < 64 ==> bit(r, t) == knight_move(square as int, t),
{
    let mut bb: u64 = 0;
    proof {
        assert forall|t: int| 0 <= t < 64 implies !bit(bb, t) by {
            lemma_bit_zero(t as u64);
        }
    }
    bb = add_leap(bb, square, 1, 2);
    bb = add_leap(bb, square, 1, -2);
    bb = add_leap(bb, square, -1, 2);
    bb = add_leap(bb, square, -1, -2);
    bb = add_leap(bb, square, 2, 1);
    bb = add_leap(bb, square, 2, -1);
    bb = add_leap(bb, square, -2, 1);
    bb = add_leap(bb, square, -2, -1);
    bb
}

/// Squares a king on `square` attacks.
pub fn king_attacks(square: usize) -> (r: u64)
    requires
        square < 64,
    ensures
        forall|t: int| 0 <= t < 64 ==> bit(r, t) == king_move(square as int, t),
{
    let mut bb: u64 = 0;
    proof {
        assert forall|t: int| 0 <= t < 64 implies !bit(bb, t) by {
            lemma_bit_zero(t as u64);
        }
    }
    bb = add_leap(bb, square, 1, 1);
    bb = add_leap(bb, square, 1, 0);
    bb = add_leap(bb, square, 1, -1);
    bb = add_leap(bb, square, 0, 1);
    bb = add_leap(bb, square, 0, -1);
    bb = add_leap(bb, square, -1, 1);
    bb = add_leap(bb, square, -1, 0);
    bb = add_leap(bb, square, -1, -1);
    bb
}

/// Squares a pawn of the given side on `square` attacks.
pub fn pawn_attacks(white: bool, square: usize) -> (r: u64)
    requires
        square < 64,
    ensures
        forall|t: int| 0 <= t < 64 ==> bit(r, t) == pawn_capture(white, square as int, t),
{
    let mut bb: u64 = 0;
    proof {
        assert forall|t: int| 0 <= t < 64 implies !bit(bb, t) by {
            lemma_bit_zero(t as u64);
        }
    }
    if white {
        bb = add_leap(bb, square, -1, 1);
        bb = add_leap(bb, square, 1, 1);
    } else {
        bb = add_leap(bb, square, -1, -1);
        bb = add_leap(bb, square, 1, -1);
    }
    bb
}

/// Squares a slider on `square` reaches along (df, dr), the first occupied one included.
fn slide(square: usize, occupancy: u64, df: i64, dr: i64) -> (r: u64)
    requires
        square < 64,
        dir_ok(df as int, dr as int),
    ensures
        forall|t: int| 0 <= t < 64 ==> bit(r, t) == slides(occupancy, square as int, t, df as int, dr as int),
{
    let ghost from = square as int;
    let mut attacks: u64 = 0;
    let mut f: i64 = (square % 8) as i64 + df;
    let mut r: i64 = (square / 8) as i64 + dr;
    let mut done = false;
    let ghost mut k: int = 1;
    proof {
        assert forall|t: int| 0 <= t < 64 implies !bit(attacks, t) by {
            lemma_bit_zero(t as u64);
        }
    }
    while !done && 0 <= f && f < 8 && 0 <= r && r < 8
        invariant
            k >= 1,
            f == sq_file(from) + scale(k, df as int),
            r == sq_rank(from) + scale(k, dr as int),
            0 <= from < 64,
            from == square,
            dir_ok(df as int, dr as int),
            forall|j: int| 1 <= j < k ==> !bit(occupancy, #[trigger] step(from, df as int, dr as int, j)),
            done ==> on_board(f as int, r as int) && bit(occupancy, step(from, df as int, dr as int, k)),
            forall|t: int|
                0 <= t < 64 ==> (bit(attacks, t) <==> (slides(occupancy, from, t, df as int, dr as int)
                    && ray_steps(from, t, df as int, dr as int) < k + (if done { 1int } else { 0int }))),
        decreases 8 - k + (if done { 0int } else { 1int }),
    {
        proof {
            lemma_step_on_board(from, df as int, dr as int, k);
        }
        let s = (r * 8 + f) as usize;
        let ghost prev = attacks;
        attacks = attacks | (1u64 << s);
        proof {
            assert(s == step(from, df as int, dr as int, k));
            assert forall|t: int| 0 <= t < 64 implies (bit(attacks, t) <==> (slides(occupancy, from, t, df as int, dr as int)
                    && ray_steps(from, t, df as int, dr as int) < k + 1)) by {
                lemma_bit_or(prev, 1u64 << s as u64, t as u64);
                lemma_bit_single(s as u64, t as u64);
                if ray_steps(from, t, df as int, dr as int) >= 1 {
                    lemma_ray_target(from, t, df as int, dr as int);
                }
            }
        }
        if (occupancy >> s as u64) & 1 == 1 {
            done = true;
        } else {
            f = f + df;
            r = r + dr;
            proof {
                k = k + 1;
            }
        }
    }
    proof {
        assert forall|t: int| 0 <= t < 64 implies bit(attacks, t) == slides(occupancy, from, t, df as int, dr as int) by {
            if slides(occupancy, from, t, df as int, dr as int) {
                lemma_ray_target(from, t, df as int, dr as int);
                if !done && ray_steps(from, t, df as int, dr as int) >= k {
                    assert(on_board(sq_file(from) + scale(k, df as int), sq_rank(from) + scale(k, dr as int)));
                }
                if done && ray_steps(from, t, df as int, dr as int) >= k + 1 {
                    assert(!bit(occupancy, step(from, df as int, dr as int, k)));
                }
            }
        }
    }
    attacks
}

/// Squares a rook on `square` attacks given the occupied squares.
pub fn get_rook_attacks(square: usize, occupancy: u64) -> (r: u64)
    requires
        square < 64,
    ensures
        forall|t: int| 0 <= t < 64 ==> bit(r, t) == rook_sees(occupancy, square as int, t),
{
    let a = slide(square, occupancy, 0, 1);
    let b = slide(square, occupancy, 0, -1);
    let c = slide(square, occupancy, 1, 0);
    let d = slide(square, occupancy, -1, 0);
    proof {
        assert forall|t: int| 0 <= t < 64 implies bit(a | b | c | d, t) == rook_sees(occupancy, square as int, t) by {
            lemma_bit_or(a | b | c, d, t as u64);
            lemma_bit_or(a | b, c, t as u64);
            lemma_bit_or(a, b, t as u64);
        }
    }
    a | b | c | d
}

/// Squares a bishop on `square` attacks given the occupied squares.
pub fn get_bishop_attacks(square: usize, occupancy: u64) -> (r: u64)
    requires
        square < 64,
    ensures
        forall|t: int| 0 <= t < 64 ==> bit(r, t) == bishop_sees(occupancy, square as int, t),
{
    let a = slide(square, occupancy, 1, 1);
    let b = slide(square, occupancy, 1, -1);
    let c = slide(square, occupancy, -1, 1);
    let d = slide(square, occupancy, -1, -1);
    proof {
        assert forall|t: int| 0 <= t < 64 implies bit(a | b | c | d, t) == bishop_sees(occupancy, square as int, t) by {
            lemma_bit_or(a | b | c, d, t as u64);
            lemma_bit_or(a | b, c, t as u64);
            lemma_bit_or(a, b, t as u64);
        }
    }
    a | b | c | d
}


/// The bitboard of the occupied squares among the first `n`.
pub open spec fn occ_upto(ps: Seq<Piece>, n: int) -> u64
    decreases n,
{
    if n <= 0 {
        0
    } else if ps[n - 1] != Piece::NONE {
        occ_upto(ps, n - 1) | (1u64 << ((n - 1) as u64))
    } else {
        occ_upto(ps, n - 1)
    }
}

/// The bitboard of the occupied squares.
pub open spec fn occ_of(ps: Seq<Piece>) -> u64 {
    occ_upto(ps, 64)
}

pub proof fn lemma_occ_upto(ps: Seq<Piece>, n: int)
    requires
        0 <= n <= 64,
        ps.len() == 64,
    ensures
        forall|s: int| 0 <= s < 64 ==> bit(occ_upto(ps, n), s) == (s < n && ps[s] != Piece::NONE),
    decreases n,
{
    if n == 0 {
        assert forall|s: int| 0 <= s < 64 implies !bit(occ_upto(ps, n), s) by {
            lemma_bit_zero(s as u64);
        }
    } else {
        lemma_occ_upto(ps, n - 1);
        assert forall|s: int| 0 <= s < 64 implies bit(occ_upto(ps, n), s) == (s < n && ps[s] != Piece::NONE) by {
            if ps[n - 1] != Piece::NONE {
                lemma_bit_or(occ_upto(ps, n - 1), 1u64 << ((n - 1) as u64), s as u64);
                lemma_bit_single((n - 1) as u64, s as u64);
            }
        }
    }
}

pub proof fn lemma_occ_of(ps: Seq<Piece>)
    requires
        ps.len() == 64,
    ensures
        forall|s: int| 0 <= s < 64 ==> #[trigger] bit(occ_of(ps), s) == (ps[s] != Piece::NONE),
{
    lemma_occ_upto(ps, 64);
}

/// The piece on `t` attacks square `sq`, seen from `sq`: a pawn of the defending side
/// standing on `sq` would capture towards `t`, a knight or king jump links the squares,
/// or a bishop, rook or queen ray from `sq` first meets `t`.
pub open spec fn hits(ps: Seq<Piece>, t: int, sq: int, defender: Color) -> bool {
    let p = ps[t];
    let occ = occ_of(ps);
    if p.ptype() == PieceType::PAWN {
        pawn_capture(defender == Color::WHITE, sq, t)
    } else if p.ptype() == PieceType::KNIGHT {
        knight_move(sq, t)
    } else if p.ptype() == PieceType::BISHOP {
        bishop_sees(occ, sq, t)
    } else if p.ptype() == PieceType::ROOK {
        rook_sees(occ, sq, t)
    } else if p.ptype() == PieceType::QUEEN {
        bishop_sees(occ, sq, t) || rook_sees(occ, sq, t)
    } else if p.ptype() == PieceType::KING {
        king_move(sq, t)
    } else {
        false
    }
}

/// Some piece of the side opposite to `side` attacks square `sq`.
pub open spec fn attacked(ps: Seq<Piece>, sq: int, side: Color) -> bool {
    exists|t: int|
        0 <= t < 64 && ps[t] != Piece::NONE && ps[t].pcolor() == side.flip() && #[trigger] hits(
            ps,
            t,
            sq,
            side,
        )
}

/// The king of `side` stands on an attacked square.
pub open spec fn in_check(ps: Seq<Piece>, side: Color) -> bool {
    exists|s: int|
        0 <= s < 64 && #[trigger] ps[s] == Piece::of(PieceType::KING, side) && attacked(ps, s, side)
}

/// Board-level occupancy facts from the consistency of the bitboards.
pub proof fn lemma_board_occ(b: &Board)
    requires
        b.bb_ok(),
    ensures
        b.occupancies[2] == occ_of(b.pieces@),
        b.occupancies[0] | b.occupancies[1] == occ_of(b.pieces@),
{
    reveal(Board::bb_ok);
    lemma_occ_of(b.pieces@);
    assert forall|t: int| 0 <= t < 64 implies bit(b.occupancies[2], t) == bit(occ_of(b.pieces@), t) by {
    }
    lemma_bits_ext(b.occupancies[2], occ_of(b.pieces@));
    assert forall|t: int| 0 <= t < 64 implies bit(b.occupancies[0] | b.occupancies[1], t) == bit(occ_of(b.pieces@), t) by {
        lemma_bit_or(b.occupancies[0], b.occupancies[1], t as u64);
        assert(bit(b.occupancies[0], t) == (b.pieces[t] != Piece::NONE && b.pieces[t].pcolor() == Color::WHITE));
        assert(bit(b.occupancies[1], t) == (b.pieces[t] != Piece::NONE && b.pieces[t].pcolor() == Color::BLACK));
    }
    lemma_bits_ext(b.occupancies[0] | b.occupancies[1], occ_of(b.pieces@));
}

/// Whether any square is in both bitboards, square by square.
proof fn lemma_meets(a: u64, b: u64)
    ensures
        (a & b != 0) == (exists|t: int| 0 <= t < 64 && #[trigger] bit(a, t) && bit(b, t)),
{
    lemma_zero_iff_no_bits(a & b);
    if a & b != 0 {
        let t = choose|t: int| 0 <= t < 64 && bit(a & b, t);
        lemma_bit_and(a, b, t as u64);
    } else {
        assert forall|t: int| 0 <= t < 64 implies !(bit(a, t) && bit(b, t)) by {
            lemma_bit_and(a, b, t as u64);
        }
    }
}

/// Whether a piece of the side opposite to `side` attacks `square`.
pub fn square_attacked(square: usize, side: Color, position: &Board) -> (r: bool)
    requires
        square < 64,
        side.is_side(),
        position.bb_ok(),
    ensures
        r == attacked(position.pieces@, square as int, side),
{
    let ghost ps = position.pieces@;
    let enemy_side = side.opposite();
    proof {
        reveal(Board::bb_ok);
        lemma_board_occ(position);
        lemma_occ_of(ps);
    }

    let enemy_pawns = position.bitboards[PieceType::PAWN.bb_index(enemy_side)];
    let capturing_offsets = pawn_attacks(side == Color::WHITE, square);
    let ghost wp = side;
    if (capturing_offsets & enemy_pawns) != 0 {
        proof {
            lemma_meets(capturing_offsets, enemy_pawns);
            let t = choose|t: int| 0 <= t < 64 && #[trigger] bit(capturing_offsets, t) && bit(enemy_pawns, t);
            assert(hits(ps, t, square as int, wp));
        }
        return true;
    }
    let enemy_knights = position.bitboards[PieceType::KNIGHT.bb_index(enemy_side)];
    let ka = knight_attacks(square);
    if (ka & enemy_knights) != 0 {
        proof {
            lemma_meets(ka, enemy_knights);
            let t = choose|t: int| 0 <= t < 64 && #[trigger] bit(ka, t) && bit(enemy_knights, t);
            assert(hits(ps, t, square as int, wp));
        }
        return true;
    }

    let our_occupancy = position.occupancies[side.index()];
    let their_occupancy = position.occupancies[enemy_side.index()];
    let occ = our_occupancy | their_occupancy;
    proof {
        assert(occ == occ_of(ps)) by {
            if side == Color::WHITE {
            } else {
                crate::bits::lemma_xor_algebra(our_occupancy, their_occupancy, 0, 0, 0);
            }
        }
    }

    let enemy_bishops = position.bitboards[PieceType::BISHOP.bb_index(enemy_side)];
    let enemy_queens = position.bitboards[PieceType::QUEEN.bb_index(enemy_side)];
    let diagonal_attackers = enemy_bishops | enemy_queens;
    let ba = get_bishop_attacks(square, occ);
    let bishop_attacks = ba & !our_occupancy;
    if (bishop_attacks & diagonal_attackers) != 0 {
        proof {
            lemma_meets(bishop_attacks, diagonal_attackers);
            let t = choose|t: int| 0 <= t < 64 && #[trigger] bit(bishop_attacks, t) && bit(diagonal_attackers, t);
            lemma_bit_and(ba, !our_occupancy, t as u64);
            lemma_bit_or(enemy_bishops, enemy_queens, t as u64);
            assert(hits(ps, t, square as int, wp));
        }
        return true;
    }

    let enemy_rooks = position.bitboards[PieceType::ROOK.bb_index(enemy_side)];
    let orthogonal_attackers = enemy_rooks | enemy_queens;
    let ra = get_rook_attacks(square, occ);
    let rook_attacks = ra & !our_occupancy;
    if (rook_attacks & orthogonal_attackers) != 0 {
        proof {
            lemma_meets(rook_attacks, orthogonal_attackers);
            let t = choose|t: int| 0 <= t < 64 && #[trigger] bit(rook_attacks, t) && bit(orthogonal_attackers, t);
            lemma_bit_and(ra, !our_occupancy, t as u64);
            lemma_bit_or(enemy_rooks, enemy_queens, t as u64);
            assert(hits(ps, t, square as int, wp));
        }
        return true;
    }

    let enemy_kings = position.bitboards[PieceType::KING.bb_index(enemy_side)];
    let kia = king_attacks(square);
    if (kia & enemy_kings) != 0 {
        proof {
            lemma_meets(kia, enemy_kings);
            let t = choose|t: int| 0 <= t < 64 && #[trigger] bit(kia, t) && bit(enemy_kings, t);
            assert(hits(ps, t, square as int, wp));
        }
        return true;
    }
    proof {
        lemma_meets(capturing_offsets, enemy_pawns);
        lemma_meets(ka, enemy_knights);
        lemma_meets(bishop_attacks, diagonal_attackers);
        lemma_meets(rook_attacks, orthogonal_attackers);
        lemma_meets(kia, enemy_kings);
        assert forall|t: int| 0 <= t < 64 && ps[t] != Piece::NONE && ps[t].pcolor() == side.flip() implies !#[trigger] hits(ps, t, square as int, wp) by {
            let p = ps[t];
            assert(bit(position.bitboards[p.idx() as int], t));
            lemma_bit_and(ba, !our_occupancy, t as u64);
            lemma_bit_and(ra, !our_occupancy, t as u64);
            lemma_bit_not(our_occupancy, t as u64);
            lemma_bit_or(enemy_bishops, enemy_queens, t as u64);
            lemma_bit_or(enemy_rooks, enemy_queens, t as u64);
            assert(!bit(our_occupancy, t));
            assert(p.idx() == p.ptype().idx() * 4 + enemy_side.idx());
            if p.ptype() == PieceType::PAWN {
                assert(bit(enemy_pawns, t));
                assert(!bit(capturing_offsets, t));
            } else if p.ptype() == PieceType::KNIGHT {
                assert(bit(enemy_knights, t));
                assert(!bit(ka, t));
            } else if p.ptype() == PieceType::BISHOP {
                assert(bit(enemy_bishops, t));
                assert(bit(diagonal_attackers, t));
                assert(!bit(bishop_attacks, t));
                assert(!bit(ba, t));
            } else if p.ptype() == PieceType::ROOK {
                assert(bit(enemy_rooks, t));
                assert(bit(orthogonal_attackers, t));
                assert(!bit(rook_attacks, t));
                assert(!bit(ra, t));
            } else if p.ptype() == PieceType::QUEEN {
                assert(bit(enemy_queens, t));
                assert(bit(orthogonal_attackers, t));
                assert(bit(diagonal_attackers, t));
                assert(!bit(rook_attacks, t));
                assert(!bit(bishop_attacks, t));
                assert(!bit(ra, t));
                assert(!bit(ba, t));
            } else if p.ptype() == PieceType::KING {
                assert(bit(enemy_kings, t));
                assert(!bit(kia, t));
            }
        }
    }
    false
}

/// A piece of type `pt` and side `side` stands on `t` among the occupied squares `occ`
/// and attacks `sq` through them.
pub open spec fn attacks_through(ps: Seq<Piece>, occ: u64, t: int, sq: int, side: Color, pt: PieceType) -> bool {
    &&& ps[t] == Piece::of(pt, side)
    &&& bit(occ, t)
    &&& if pt == PieceType::PAWN {
        pawn_capture(side != Color::WHITE, sq, t)
    } else if pt == PieceType::KNIGHT {
        knight_move(sq, t)
    } else if pt == PieceType::BISHOP {
        bishop_sees(occ, sq, t)
    } else if pt == PieceType::ROOK {
        rook_sees(occ, sq, t)
    } else if pt == PieceType::QUEEN {
        bishop_sees(occ, sq, t) || rook_sees(occ, sq, t)
    } else if pt == PieceType::KING {
        king_move(sq, t)
    } else {
        false
    }
}

pub open spec fn has_attacker(ps: Seq<Piece>, occ: u64, sq: int, side: Color, pt: PieceType) -> bool {
    exists|t: int| 0 <= t < 64 && #[trigger] attacks_through(ps, occ, t, sq, side, pt)
}

/// The attacker types from least to most valuable: pawn, knight, bishop, rook, queen, king.
pub open spec fn type_rank(pt: PieceType) -> int {
    pt.idx() as int
}

/// `b` holds exactly the squares `t < 64` whose attacker of type `pt` is the lowest.
pub open spec fn lowest_attacker_bit(ps: Seq<Piece>, occ: u64, sq: int, side: Color, pt: PieceType, b: u64) -> bool {
    exists|s: int| {
        &&& 0 <= s < 64
        &&& b == 1u64 << (s as u64)
        &&& attacks_through(ps, occ, s, sq, side, pt)
        &&& forall|t: int| 0 <= t < s ==> !#[trigger] attacks_through(ps, occ, t, sq, side, pt)
    }
}

/// The lowest square holding an attacker of type `pt` (meaningful when there is one).
pub open spec fn lowest_attacker_square(ps: Seq<Piece>, occ: u64, sq: int, side: Color, pt: PieceType) -> int {
    choose|s: int|
        0 <= s < 64 && #[trigger] attacks_through(ps, occ, s, sq, side, pt) && forall|t: int|
            0 <= t < s ==> !#[trigger] attacks_through(ps, occ, t, sq, side, pt)
}

/// The least valuable attacker of `side` on `sq` among `occ`: its type and the bit of
/// its lowest square, or for a king the king's squares within `occ`.
pub open spec fn least_attacker(pos: Board, sq: int, side: Color, occ: u64) -> Option<(PieceType, u64)> {
    let ps = pos.pieces@;
    let low = |pt: PieceType| 1u64 << (lowest_attacker_square(ps, occ, sq, side, pt) as u64);
    if has_attacker(ps, occ, sq, side, PieceType::PAWN) {
        Some((PieceType::PAWN, low(PieceType::PAWN)))
    } else if has_attacker(ps, occ, sq, side, PieceType::KNIGHT) {
        Some((PieceType::KNIGHT, low(PieceType::KNIGHT)))
    } else if has_attacker(ps, occ, sq, side, PieceType::BISHOP) {
        Some((PieceType::BISHOP, low(PieceType::BISHOP)))
    } else if has_attacker(ps, occ, sq, side, PieceType::ROOK) {
        Some((PieceType::ROOK, low(PieceType::ROOK)))
    } else if has_attacker(ps, occ, sq, side, PieceType::QUEEN) {
        Some((PieceType::QUEEN, low(PieceType::QUEEN)))
    } else if has_attacker(ps, occ, sq, side, PieceType::KING) {
        Some((PieceType::KING, pos.bitboards[(PieceType::KING.idx() * 4 + side.idx()) as int] & occ))
    } else {
        None
    }
}

/// What `get_smallest_attacker` returns is `least_attacker`.
pub proof fn lemma_least_attacker(pos: Board, sq: int, side: Color, occ: u64, r: Option<(PieceType, u64)>)
    requires
        match r {
            None => forall|pt: PieceType| !#[trigger] has_attacker(pos.pieces@, occ, sq, side, pt),
            Some((pt, b)) => {
                &&& pt != PieceType::NONE
                &&& pt != PieceType::DRAGON
                &&& has_attacker(pos.pieces@, occ, sq, side, pt)
                &&& forall|q: PieceType| type_rank(q) < type_rank(pt) ==> !#[trigger] has_attacker(pos.pieces@, occ, sq, side, q)
                &&& (pt != PieceType::KING ==> lowest_attacker_bit(pos.pieces@, occ, sq, side, pt, b))
                &&& (pt == PieceType::KING ==> b == pos.bitboards[(PieceType::KING.idx() * 4 + side.idx()) as int] & occ)
            },
        },
    ensures
        r == least_attacker(pos, sq, side, occ),
{
    let ps = pos.pieces@;
    match r {
        None => {
            assert(!has_attacker(ps, occ, sq, side, PieceType::PAWN));
            assert(!has_attacker(ps, occ, sq, side, PieceType::KNIGHT));
            assert(!has_attacker(ps, occ, sq, side, PieceType::BISHOP));
            assert(!has_attacker(ps, occ, sq, side, PieceType::ROOK));
            assert(!has_attacker(ps, occ, sq, side, PieceType::QUEEN));
            assert(!has_attacker(ps, occ, sq, side, PieceType::KING));
        },
        Some((pt, b)) => {
            assert(type_rank(PieceType::PAWN) == 1);
            assert(pt != PieceType::PAWN ==> !has_attacker(ps, occ, sq, side, PieceType::PAWN));
            assert(type_rank(pt) > 2 ==> !has_attacker(ps, occ, sq, side, PieceType::KNIGHT));
            assert(type_rank(pt) > 3 ==> !has_attacker(ps, occ, sq, side, PieceType::BISHOP));
            assert(type_rank(pt) > 4 ==> !has_attacker(ps, occ, sq, side, PieceType::ROOK));
            assert(type_rank(pt) > 5 ==> !has_attacker(ps, occ, sq, side, PieceType::QUEEN));
            if pt != PieceType::KING {
                let s = choose|s: int| {
                    &&& 0 <= s < 64
                    &&& b == 1u64 << (s as u64)
                    &&& attacks_through(ps, occ, s, sq, side, pt)
                    &&& forall|t: int| 0 <= t < s ==> !#[trigger] attacks_through(ps, occ, t, sq, side, pt)
                };
                let s2 = lowest_attacker_square(ps, occ, sq, side, pt);
                assert(0 <= s2 < 64 && attacks_through(ps, occ, s2, sq, side, pt) && forall|t: int|
                    0 <= t < s2 ==> !#[trigger] attacks_through(ps, occ, t, sq, side, pt));
                if s < s2 {
                    assert(!attacks_through(ps, occ, s, sq, side, pt));
                } else if s2 < s {
                    assert(!attacks_through(ps, occ, s2, sq, side, pt));
                }
                assert(s == s2);
            }
        },
    }
}

impl Board {
    /// The least valuable piece of `side` among `occupancy` that attacks `square`, with
    /// the bit of the lowest such square (the whole king bitboard for a king).
    pub fn get_smallest_attacker(&self, square: usize, side: Color, occupancy: u64) -> (r: Option<(PieceType, u64)>)
        requires
            square < 64,
            side.is_side(),
            self.bb_ok(),
        ensures
            match r {
                None => forall|pt: PieceType| !#[trigger] has_attacker(self.pieces@, occupancy, square as int, side, pt),
                Some((pt, b)) => {
                    &&& pt != PieceType::NONE
                    &&& pt != PieceType::DRAGON
                    &&& has_attacker(self.pieces@, occupancy, square as int, side, pt)
                    &&& forall|q: PieceType| type_rank(q) < type_rank(pt) ==> !#[trigger] has_attacker(self.pieces@, occupancy, square as int, side, q)
                    &&& b != 0
                    &&& b & !occupancy == 0
                    &&& (pt != PieceType::KING ==> lowest_attacker_bit(self.pieces@, occupancy, square as int, side, pt, b))
                    &&& (pt == PieceType::KING ==> b == self.bitboards[(PieceType::KING.idx() * 4 + side.idx()) as int] & occupancy)
                },
            },
    {
        proof {
            reveal(Board::bb_ok);
        }
        let ghost ps = self.pieces@;
        let ghost sq = square as int;
        let pawns = self.bitboards[PieceType::PAWN.bb_index(side)] & occupancy;
        let pawn_mask = pawn_attacks(side != Color::WHITE, square);
        let pawn_attackers = pawn_mask & pawns;
        proof {
            assert forall|t: int| 0 <= t < 64 implies #[trigger] bit(pawn_attackers, t) == attacks_through(ps, occupancy, t, sq, side, PieceType::PAWN) by {
                lemma_bit_and(pawn_mask, pawns, t as u64);
                lemma_bit_and(self.bitboards[(PieceType::PAWN.idx() * 4 + side.idx()) as int], occupancy, t as u64);
                crate::defs::lemma_piece_index_roundtrip(ps[t]);
            }
            lemma_meets(pawn_attackers, 0xFFFF_FFFF_FFFF_FFFFu64);
        }
        if pawn_attackers != 0 {
            let s = lowest_square(pawn_attackers);
            proof {
                lemma_see_pick(ps, occupancy, sq, side, PieceType::PAWN, pawn_attackers, s as int);
            }
            return Some((PieceType::PAWN, 1u64 << s));
        }
        proof {
            lemma_none_of(ps, occupancy, sq, side, PieceType::PAWN, pawn_attackers);
        }

        let knights = self.bitboards[PieceType::KNIGHT.bb_index(side)] & occupancy;
        let ka = knight_attacks(square);
        let knight_attackers = ka & knights;
        proof {
            assert forall|t: int| 0 <= t < 64 implies #[trigger] bit(knight_attackers, t) == attacks_through(ps, occupancy, t, sq, side, PieceType::KNIGHT) by {
                lemma_bit_and(ka, knights, t as u64);
                lemma_bit_and(self.bitboards[(PieceType::KNIGHT.idx() * 4 + side.idx()) as int], occupancy, t as u64);
                crate::defs::lemma_piece_index_roundtrip(ps[t]);
            }
        }
        if knight_attackers != 0 {
            let s = lowest_square(knight_attackers);
            proof {
                lemma_see_pick(ps, occupancy, sq, side, PieceType::KNIGHT, knight_attackers, s as int);
            }
            return Some((PieceType::KNIGHT, 1u64 << s));
        }
        proof {
            lemma_none_of(ps, occupancy, sq, side, PieceType::KNIGHT, knight_attackers);
        }

        let bishops = self.bitboards[PieceType::BISHOP.bb_index(side)] & occupancy;
        let queens = self.bitboards[PieceType::QUEEN.bb_index(side)] & occupancy;
        let diagonal_attacks = get_bishop_attacks(square, occupancy);
        let rook_attacks = get_rook_attacks(square, occupancy);
        let bishop_attackers = diagonal_attacks & bishops;
        let rook_attackers = rook_attacks & self.bitboards[PieceType::ROOK.bb_index(side)] & occupancy;
        let queen_attackers = (diagonal_attacks | rook_attacks) & queens;
        proof {
            assert forall|t: int| 0 <= t < 64 implies #[trigger] bit(bishop_attackers, t) == attacks_through(ps, occupancy, t, sq, side, PieceType::BISHOP) by {
                lemma_bit_and(diagonal_attacks, bishops, t as u64);
                lemma_bit_and(self.bitboards[(PieceType::BISHOP.idx() * 4 + side.idx()) as int], occupancy, t as u64);
                crate::defs::lemma_piece_index_roundtrip(ps[t]);
            }
            assert forall|t: int| 0 <= t < 64 implies #[trigger] bit(rook_attackers, t) == attacks_through(ps, occupancy, t, sq, side, PieceType::ROOK) by {
                lemma_bit_and(rook_attacks & self.bitboards[(PieceType::ROOK.idx() * 4 + side.idx()) as int], occupancy, t as u64);
                lemma_bit_and(rook_attacks, self.bitboards[(PieceType::ROOK.idx() * 4 + side.idx()) as int], t as u64);
                crate::defs::lemma_piece_index_roundtrip(ps[t]);
            }
            assert forall|t: int| 0 <= t < 64 implies #[trigger] bit(queen_attackers, t) == attacks_through(ps, occupancy, t, sq, side, PieceType::QUEEN) by {
                lemma_bit_and(diagonal_attacks | rook_attacks, queens, t as u64);
                lemma_bit_or(diagonal_attacks, rook_attacks, t as u64);
                lemma_bit_and(self.bitboards[(PieceType::QUEEN.idx() * 4 + side.idx()) as int], occupancy, t as u64);
                crate::defs::lemma_piece_index_roundtrip(ps[t]);
            }
        }
        if bishops | queens != 0 {
            if bishop_attackers != 0 {
                let s = lowest_square(bishop_attackers);
                proof {
                    lemma_see_pick(ps, occupancy, sq, side, PieceType::BISHOP, bishop_attackers, s as int);
                }
                return Some((PieceType::BISHOP, 1u64 << s));
            }
        }
        proof {
            if bishop_attackers != 0 {
                lemma_bit_and(diagonal_attacks, bishops, lsb(bishop_attackers) as u64);
                lemma_lsb(bishop_attackers);
                lemma_zero_iff_no_bits(bishops | queens);
                lemma_bit_or(bishops, queens, lsb(bishop_attackers) as u64);
            }
            lemma_none_of(ps, occupancy, sq, side, PieceType::BISHOP, bishop_attackers);
        }
        let rooks = self.bitboards[PieceType::ROOK.bb_index(side)] & occupancy;
        if rooks | queens != 0 {
            if rook_attackers != 0 {
                let s = lowest_square(rook_attackers);
                proof {
                    lemma_see_pick(ps, occupancy, sq, side, PieceType::ROOK, rook_attackers, s as int);
                }
                return Some((PieceType::ROOK, 1u64 << s));
            }
            if queens != 0 {
                if queen_attackers != 0 {
                    let s = lowest_square(queen_attackers);
                    proof {
                        lemma_none_of(ps, occupancy, sq, side, PieceType::ROOK, rook_attackers);
                        lemma_see_pick(ps, occupancy, sq, side, PieceType::QUEEN, queen_attackers, s as int);
                    }
                    return Some((PieceType::QUEEN, 1u64 << s));
                }
            }
        }
        proof {
            if rook_attackers != 0 {
                lemma_lsb(rook_attackers);
                lemma_bit_and(rook_attacks & self.bitboards[(PieceType::ROOK.idx() * 4 + side.idx()) as int], occupancy, lsb(rook_attackers) as u64);
                lemma_bit_and(rook_attacks, self.bitboards[(PieceType::ROOK.idx() * 4 + side.idx()) as int], lsb(rook_attackers) as u64);
                lemma_zero_iff_no_bits(rooks | queens);
                lemma_bit_and(self.bitboards[(PieceType::ROOK.idx() * 4 + side.idx()) as int], occupancy, lsb(rook_attackers) as u64);
                lemma_bit_or(rooks, queens, lsb(rook_attackers) as u64);
            }
            if queen_attackers != 0 {
                lemma_lsb(queen_attackers);
                lemma_bit_and(diagonal_attacks | rook_attacks, queens, lsb(queen_attackers) as u64);
                lemma_zero_iff_no_bits(rooks | queens);
                lemma_zero_iff_no_bits(queens);
                lemma_bit_or(rooks, queens, lsb(queen_attackers) as u64);
            }
            lemma_none_of(ps, occupancy, sq, side, PieceType::ROOK, rook_attackers);
            lemma_none_of(ps, occupancy, sq, side, PieceType::QUEEN, queen_attackers);
        }

        let king = self.bitboards[PieceType::KING.bb_index(side)] & occupancy;
        let kia = king_attacks(square);
        proof {
            assert forall|t: int| 0 <= t < 64 implies #[trigger] bit(kia & king, t) == attacks_through(ps, occupancy, t, sq, side, PieceType::KING) by {
                lemma_bit_and(kia, king, t as u64);
                lemma_bit_and(self.bitboards[(PieceType::KING.idx() * 4 + side.idx()) as int], occupancy, t as u64);
                crate::defs::lemma_piece_index_roundtrip(ps[t]);
            }
        }
        if (kia & king) != 0 {
            proof {
                lemma_lsb(kia & king);
                let s = lsb(kia & king);
                assert(attacks_through(ps, occupancy, s, sq, side, PieceType::KING));
                lemma_bit_and(kia, king, s as u64);
                let kb = self.bitboards[(PieceType::KING.idx() * 4 + side.idx()) as int];
                assert(king & !occupancy == 0) by (bit_vector)
                    requires king == kb & occupancy;
                lemma_zero_iff_no_bits(king);
            }
            return Some((PieceType::KING, king));
        }
        proof {
            lemma_none_of(ps, occupancy, sq, side, PieceType::KING, kia & king);
            assert forall|pt: PieceType| !#[trigger] has_attacker(ps, occupancy, sq, side, pt) by {
                if pt == PieceType::NONE || pt == PieceType::DRAGON {
                    if has_attacker(ps, occupancy, sq, side, pt) {
                        let t = choose|t: int| 0 <= t < 64 && #[trigger] attacks_through(ps, occupancy, t, sq, side, pt);
                    }
                }
            }
        }
        None
    }
}

/// When the attackers of one type form bitboard `x` (non-empty), its lowest square is a
/// lowest attacker, and the bit of that square lies within the occupancy.
proof fn lemma_see_pick(ps: Seq<Piece>, occ: u64, sq: int, side: Color, pt: PieceType, x: u64, s: int)
    requires
        x != 0,
        s == lsb(x),
        forall|t: int| 0 <= t < 64 ==> #[trigger] bit(x, t) == attacks_through(ps, occ, t, sq, side, pt),
    ensures
        has_attacker(ps, occ, sq, side, pt),
        lowest_attacker_bit(ps, occ, sq, side, pt, 1u64 << (s as u64)),
        1u64 << (s as u64) != 0,
        (1u64 << (s as u64)) & !occ == 0,
{
    lemma_lsb(x);
    assert(attacks_through(ps, occ, s, sq, side, pt));
    let ss = s as u64;
    assert((1u64 << ss) != 0) by (bit_vector)
        requires ss < 64;
    assert(((occ >> ss) & 1u64 == 1u64) ==> (1u64 << ss) & !occ == 0) by (bit_vector)
        requires ss < 64;
    assert forall|t: int| 0 <= t < s implies !#[trigger] attacks_through(ps, occ, t, sq, side, pt) by {
        assert(!bit(x, t));
    }
}

proof fn lemma_none_of(ps: Seq<Piece>, occ: u64, sq: int, side: Color, pt: PieceType, x: u64)
    requires
        x == 0,
        forall|t: int| 0 <= t < 64 ==> #[trigger] bit(x, t) == attacks_through(ps, occ, t, sq, side, pt),
    ensures
        !has_attacker(ps, occ, sq, side, pt),
{
    if has_attacker(ps, occ, sq, side, pt) {
        let t = choose|t: int| 0 <= t < 64 && #[trigger] attacks_through(ps, occ, t, sq, side, pt);
        lemma_bit_zero(t as u64);
        assert(bit(x, t));
    }
}

} // verus!
