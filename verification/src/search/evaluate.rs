//! Static evaluation of a position and static exchange evaluation of a capture.
use vstd::prelude::*;
use crate::bits::{bit, popcount, lowest_square, without_lowest, count_bits, lemma_popcount_le_64};
use crate::movegen::attacks::{knight_attacks, king_attacks, pawn_attacks, get_rook_attacks, get_bishop_attacks};
use crate::board::Board;
use crate::defs::{Color, Piece, PieceType};
use crate::movegen::attacks::{least_attacker, lemma_least_attacker, knight_move, king_move, pawn_capture, rook_sees, bishop_sees};
use crate::bits::{lsb, lemma_popcount_decreases, lemma_bits_ext, lemma_bit_or, lemma_bit_and, lemma_bit_zero, lemma_zero_iff_no_bits, squares_below, lemma_popcount_counts_squares};

verus! {

/// Material value of each piece type, by index: none, pawn, knight, bishop, rook, queen,
/// king, dragon.
pub const PIECE_VALUE: [i32; 8] = [0, 100, 325, 325, 550, 1000, 32767, 1300];

pub open spec fn piece_value(pt: PieceType) -> int {
    PIECE_VALUE[pt.idx() as int] as int
}

/// Square `s` seen from black's side: the rank is flipped.
pub const MIRROR64: [usize; 64] = [
    56, 57, 58, 59, 60, 61, 62, 63,
    48, 49, 50, 51, 52, 53, 54, 55,
    40, 41, 42, 43, 44, 45, 46, 47,
    32, 33, 34, 35, 36, 37, 38, 39,
    24, 25, 26, 27, 28, 29, 30, 31,
    16, 17, 18, 19, 20, 21, 22, 23,
    8, 9, 10, 11, 12, 13, 14, 15,
    0, 1, 2, 3, 4, 5, 6, 7,
];

/// Piece-square bonuses in the opening, by piece type, from white's side.
pub const OPENING_PIECE_SQUARE: [[i32; 64]; 8] = [
    [
        0, 0, 0, 0, 0, 0, 0, 0,
        0, 0, 0, 0, 0, 0, 0, 0,
        0, 0, 0, 0, 0, 0, 0, 0,
        0, 0, 0, 0, 0, 0, 0, 0,
        0, 0, 0, 0, 0, 0, 0, 0,
        0, 0, 0, 0, 0, 0, 0, 0,
        0, 0, 0, 0, 0, 0, 0, 0,
        0, 0, 0, 0, 0, 0, 0, 0,
    ],
    [
        0, 0, 0, 0, 0, 0, 0, 0,
        10, 10, 0, -10, -10, 0, 10, 10,
        5, 0, 0, 5, 5, 0, 0, 5,
        0, 0, 10, 20, 20, 10, 0, 0,
        5, 5, 5, 10, 10, 5, 5, 5,
        10, 10, 10, 20, 20, 10, 10, 10,
        20, 20, 20, 30, 30, 20, 20, 20,
        0, 0, 0, 0, 0, 0, 0, 0,
    ],
    [
        0, -10, 0, 0, 0, 0, -10, 0,
        0, 0, 0, 5, 5, 0, 0, 0,
        0, 0, 10, 10, 10, 10, 0, 0,
        0, 0, 10, 20, 20, 10, 5, 0,
        5, 10, 15, 20, 20, 15, 10, 5,
        5, 10, 10, 20, 20, 10, 10, 5,
        0, 0, 5, 10, 10, 5, 0, 0,
        0, 0, 0, 0, 0, 0, 0, 0,
    ],
    [
        0, 0, -10, 0, 0, -10, 0, 0,
        0, 0, 0, 10, 10, 0, 0, 0,
        0, 0, 10, 15, 15, 10, 0, 0,
        0, 10, 15, 20, 20, 15, 10, 0,
        0, 10, 15, 20, 20, 15, 10, 0,
        0, 0, 10, 15, 15, 10, 0, 0,
        0, 0, 0, 10, 10, 0, 0, 0,
        0, 0, 0, 0, 0, 0, 0, 0,
    ],
    [
        0, 0, 5, 10, 10, 5, 0, 0,
        0, 0, 5, 10, 10, 5, 0, 0,
        0, 0, 5, 10, 10, 5, 0, 0,
        0, 0, 5, 10, 10, 5, 0, 0,
        0, 0, 5, 10, 10, 5, 0, 0,
        0, 0, 5, 10, 10, 5, 0, 0,
        25, 25, 25, 25, 25, 25, 25, 25,
        0, 0, 5, 10, 10, 5, 0, 0,
    ],
    [
        0, 0, 0, 0, 0, 0, 0, 0,
        0, 0, 0, 0, 0, 0, 0, 0,
        0, 0, 0, 0, 0, 0, 0, 0,
        0, 0, 0, 0, 0, 0, 0, 0,
        0, 0, 0, 0, 0, 0, 0, 0,
        0, 0, 0, 0, 0, 0, 0, 0,
        0, 0, 0, 0, 0, 0, 0, 0,
        0, 0, 0, 0, 0, 0, 0, 0,
    ],
    [
        0, 5, 5, -10, -10, 0, 10, 5,
        -30, -30, -30, -30, -30, -30, -30, -30,
        -50, -50, -50, -50, -50, -50, -50, -50,
        -70, -70, -70, -70, -70, -70, -70, -70,
        -70, -70, -70, -70, -70, -70, -70, -70,
        -70, -70, -70, -70, -70, -70, -70, -70,
        -70, -70, -70, -70, -70, -70, -70, -70,
        -70, -70, -70, -70, -70, -70, -70, -70,
    ],
    [
        0, 0, 0, 0, 0, 0, 0, 0,
        0, 0, 0, 0, 0, 0, 0, 0,
        0, 0, 0, 0, 0, 0, 0, 0,
        0, 0, 0, 0, 0, 0, 0, 0,
        0, 0, 0, 0, 0, 0, 0, 0,
        0, 0, 0, 0, 0, 0, 0, 0,
        0, 0, 0, 0, 0, 0, 0, 0,
        0, 0, 0, 0, 0, 0, 0, 0,
    ],
];

/// Piece-square bonuses in the ending, by piece type, from white's side.
pub const ENDING_PIECE_SQUARE: [[i32; 64]; 8] = [
    [
        0, 0, 0, 0, 0, 0, 0, 0,
        0, 0, 0, 0, 0, 0, 0, 0,
        0, 0, 0, 0, 0, 0, 0, 0,
        0, 0, 0, 0, 0, 0, 0, 0,
        0, 0, 0, 0, 0, 0, 0, 0,
        0, 0, 0, 0, 0, 0, 0, 0,
        0, 0, 0, 0, 0, 0, 0, 0,
        0, 0, 0, 0, 0, 0, 0, 0,
    ],
    [
        0, 0, 0, 0, 0, 0, 0, 0,
        0, 0, 0, 0, 0, 0, 0, 0,
        5, 5, 5, 5, 5, 5, 5, 5,
        10, 10, 10, 20, 20, 10, 10, 10,
        20, 20, 20, 30, 30, 20, 20, 20,
        40, 40, 40, 50, 50, 40, 40, 40,
        80, 80, 80, 90, 90, 80, 80, 80,
        0, 0, 0, 0, 0, 0, 0, 0,
    ],
    [
        -10, -5, -5, -5, -5, -5, -5, -10,
        -5, 0, 0, 0, 0, 0, 0, -5,
        -5, 0, 10, 10, 10, 10, 0, -5,
        -5, 0, 15, 20, 20, 15, 0, -5,
        -5, 0, 15, 20, 20, 15, 0, -5,
        -5, 0, 10, 10, 10, 10, 0, -5,
        -5, 0, 0, 0, 0, 0, 0, -5,
        -10, -5, -5, -5, -5, -5, -5, -10,
    ],
    [
        -10, -5, -5, -5, -5, -5, -5, -10,
        -5, 0, 0, 0, 0, 0, 0, -5,
        -5, 0, 5, 10, 10, 5, 0, -5,
        -5, 5, 10, 20, 20, 10, 5, -5,
        -5, 5, 10, 20, 20, 10, 5, -5,
        -5, 0, 5, 10, 10, 5, 0, -5,
        -5, 0, 0, 0, 0, 0, 0, -5,
        -10, -5, -5, -5, -5, -5, -5, -10,
    ],
    [
        0, 0, 0, 5, 5, 0, 0, 0,
        0, 0, 0, 5, 5, 0, 0, 0,
        0, 0, 0, 5, 5, 0, 0, 0,
        0, 0, 0, 5, 5, 0, 0, 0,
        0, 0, 0, 5, 5, 0, 0, 0,
        0, 0, 0, 5, 5, 0, 0, 0,
        0, 0, 0, 5, 5, 0, 0, 0,
        0, 0, 0, 5, 5, 0, 0, 0,
    ],
    [
        -10, -5, -5, -5, -5, -5, -5, -10,
        -5, 0, 0, 0, 0, 0, 0, -5,
        -5, 0, 5, 5, 5, 5, 0, -5,
        -5, 0, 10, 20, 20, 10, 0, -5,
        -5, 0, 10, 20, 20, 10, 0, -5,
        -5, 0, 5, 5, 5, 5, 0, -5,
        -5, 0, 0, 0, 0, 0, 0, -5,
        -10, -5, -5, -5, -5, -5, -5, -10,
    ],
    [
        -50, -10, 0, 0, 0, 0, -10, -50,
        -10, 0, 10, 10, 10, 10, 0, -10,
        0, 10, 20, 20, 20, 20, 10, 0,
        0, 10, 20, 40, 40, 20, 10, 0,
        0, 10, 20, 40, 40, 20, 10, 0,
        0, 10, 20, 20, 20, 20, 10, 0,
        -10, 0, 10, 10, 10, 10, 0, -10,
        -50, -10, 0, 0, 0, 0, -10, -50,
    ],
    [
        0, 0, 0, 0, 0, 0, 0, 0,
        0, 0, 0, 0, 0, 0, 0, 0,
        0, 0, 0, 0, 0, 0, 0, 0,
        0, 0, 0, 0, 0, 0, 0, 0,
        0, 0, 0, 0, 0, 0, 0, 0,
        0, 0, 0, 0, 0, 0, 0, 0,
        0, 0, 0, 0, 0, 0, 0, 0,
        0, 0, 0, 0, 0, 0, 0, 0,
    ],
];

pub const FILE_MASKS: [u64; 8] = [
    0x0101010101010101,
    0x0202020202020202,
    0x0404040404040404,
    0x0808080808080808,
    0x1010101010101010,
    0x2020202020202020,
    0x4040404040404040,
    0x8080808080808080,
];

/// The squares of the files beside the file of `sq`: a pawn with no pawn of its own side
/// there is isolated.
pub open spec fn isolated_mask(sq: int) -> u64 {
    let f = sq % 8;
    (if f > 0 { FILE_MASKS[f - 1] } else { 0u64 }) | (if f < 7 { FILE_MASKS[f + 1] } else { 0u64 })
}

/// The isolated pawn mask of `sq`.
pub fn isolated_pawn_mask(sq: usize) -> (m: u64)
    requires
        sq < 64,
    ensures
        m == isolated_mask(sq as int),
{
    let f = sq % 8;
    let left: u64 = if f > 0 { FILE_MASKS[f - 1] } else { 0 };
    let right: u64 = if f < 7 { FILE_MASKS[f + 1] } else { 0 };
    left | right
}

pub const ROOK_OPEN_FILE_BONUS: i32 = 30;
pub const ROOK_SEMI_OPEN_FILE_BONUS: i32 = 15;
pub const QUEEN_OPEN_FILE_BONUS: i32 = 10;
pub const QUEEN_SEMI_OPEN_FILE_BONUS: i32 = 5;

/// Bonus of a passed pawn by the number of ranks it has advanced.
pub const PAWN_PASSED_BONUS: [i32; 8] = [0, 5, 10, 20, 35, 60, 100, 200];

pub const PAWN_ISOLATED: i32 = -10;

/// Weight of each piece type in the game phase.
pub const PHASE_VALUES: [i32; 8] = [0, 0, 1, 1, 2, 4, 0, 0];

/// The phase weight of the starting material: four knights, four bishops, four rooks
/// and two queens.
pub const TOTAL_PHASE: i32 = 24;

/// The squares in front of a castled king where its pawn shield stands.
pub const PAWN_SHIELD: [u64; 64] = [
    768, 1792, 3584, 0, 0, 0, 57344, 49152,
    0, 0, 0, 0, 0, 0, 0, 0,
    0, 0, 0, 0, 0, 0, 0, 0,
    0, 0, 0, 0, 0, 0, 0, 0,
    0, 0, 0, 0, 0, 0, 0, 0,
    0, 0, 0, 0, 0, 0, 0, 0,
    0, 0, 0, 0, 0, 0, 0, 0,
    844424930131968, 1970324836974592, 3940649673949184, 0, 0, 0, 63050394783186944, 54043195528445952,
];

pub const KNIGHT_MOBILITY: [[i32; 9]; 2] = [
    [-20, -15, -5, 0, 5, 10, 15, 20, 25],
    [-20, -10, 0, 5, 10, 15, 20, 25, 30],
];

pub const BISHOP_MOBILITY: [[i32; 14]; 2] = [
    [-15, -5, 0, 5, 10, 15, 20, 25, 30, 35, 40, 45, 50, 50],
    [-15, -5, 0, 5, 10, 15, 20, 25, 30, 35, 40, 45, 50, 50],
];

pub const ROOK_MOBILITY: [[i32; 15]; 2] = [
    [-15, -10, -5, 0, 5, 10, 15, 20, 25, 30, 35, 40, 45, 50, 50],
    [-15, -10, -5, 0, 10, 20, 30, 40, 50, 60, 70, 80, 90, 100, 100],
];

pub const QUEEN_MOBILITY: [[i32; 28]; 2] = [
    [-10, -5, 0, 5, 10, 5, 10, 15, 20, 25, 30, 35, 40, 45, 50, 50, 50, 50, 50, 50, 50, 50, 50, 50, 50, 50, 50, 50],
    [-10, -5, 0, 5, 10, 20, 30, 40, 50, 60, 70, 80, 90, 100, 100, 100, 100, 100, 100, 100, 100, 100, 100, 100, 100, 100, 100, 100],
];

pub const PAWN_THREAT_ON_KNIGHT: [i32; 2] = [-20, -10];
pub const PAWN_THREAT_ON_BISHOP: [i32; 2] = [-20, -10];
pub const PAWN_THREAT_ON_ROOK: [i32; 2] = [-40, -20];
pub const PAWN_THREAT_ON_QUEEN: [i32; 2] = [-50, -30];

/// What the side to recapture on `sq` wins from here on, when the piece standing on `sq`
/// is worth `v` and the pieces left are those of `occ`: it takes with its least valuable
/// attacker, or stops when taking loses.
pub open spec fn recapture_gain(pos: Board, sq: int, side: Color, occ: u64, v: int) -> int
    decreases occ,
{
    match least_attacker(pos, sq, side, occ) {
        Some((pt, b)) => if b != 0 && b & !occ == 0 {
            proof {
                crate::bits::lemma_clear_decreases(occ, b);
            }
            let rest = v - recapture_gain(pos, sq, side.flip(), occ & !b, piece_value(pt));
            if rest > 0 {
                rest
            } else {
                0
            }
        } else {
            0
        },
        None => 0,
    }
}

/// The material balance of capturing on `to` from `from`: the target's value, less what
/// the opponent then wins by recapturing.
pub open spec fn exchange_value(pos: Board, from: int, to: int, target: PieceType, capturer: PieceType) -> int {
    piece_value(target) - recapture_gain(
        pos,
        to,
        pos.side.flip(),
        pos.occupancies[2] & !(1u64 << (from as u64)),
        piece_value(capturer),
    )
}

impl Board {
    /// Static exchange evaluation of the capture of `target_piece` on `to_square` by
    /// `capturer` from `from_square`: both sides keep recapturing with their least
    /// valuable attacker, and either side may stop when going on would lose material.
    pub fn static_exchange_evaluation(
        &self,
        from_square: usize,
        to_square: usize,
        target_piece: PieceType,
        capturer: PieceType,
    ) -> (r: i32)
        requires
            self.bb_ok(),
            self.side.is_side(),
            from_square < 64,
            to_square < 64,
        ensures
            r == exchange_value(*self, from_square as int, to_square as int, target_piece, capturer),
    {
        // The values of the pieces that stand on the square in turn, each taken by the
        // next capture, and the state before each recapture.
        let mut values: Vec<i32> = Vec::new();
        let ghost mut occs: Seq<u64> = Seq::empty();
        let ghost mut sides: Seq<Color> = Seq::empty();

        let from_bb: u64 = 1u64 << from_square;
        let mut occupancy = self.occupancies[2] & !from_bb;
        let mut side_to_move = self.side.opposite();
        let first = PIECE_VALUE[capturer.index()];
        values.push(first);
        proof {
            occs = occs.push(occupancy);
            sides = sides.push(side_to_move);
        }
        let ghost first_occ = occupancy;
        loop
            invariant_except_break
                self.bb_ok(),
                to_square < 64,
                side_to_move.is_side(),
                values.len() == occs.len(),
                values.len() == sides.len(),
                values.len() >= 1,
                occs[0] == first_occ,
                sides[0] == self.side.flip(),
                values[0] == piece_value(capturer),
                occupancy == occs.last(),
                side_to_move == sides.last(),
                forall|k: int| 0 <= k < values.len() ==> 0 <= #[trigger] values[k] <= 32767,
                forall|k: int| 0 <= k < values.len() - 1 ==> {
                    let g = recapture_gain(*self, to_square as int, sides[k + 1], occs[k + 1], values[k + 1] as int);
                    let rest = values[k] - g;
                    #[trigger] recapture_gain(*self, to_square as int, sides[k], occs[k], values[k] as int)
                        == if rest > 0 { rest } else { 0 }
                },
            ensures
                values.len() == occs.len(),
                values.len() == sides.len(),
                values.len() >= 1,
                occs[0] == first_occ,
                sides[0] == self.side.flip(),
                values[0] == piece_value(capturer),
                forall|k: int| 0 <= k < values.len() ==> 0 <= #[trigger] values[k] <= 32767,
                forall|k: int| 0 <= k < values.len() - 1 ==> {
                    let g = recapture_gain(*self, to_square as int, sides[k + 1], occs[k + 1], values[k + 1] as int);
                    let rest = values[k] - g;
                    #[trigger] recapture_gain(*self, to_square as int, sides[k], occs[k], values[k] as int)
                        == if rest > 0 { rest } else { 0 }
                },
                recapture_gain(*self, to_square as int, sides.last(), occs.last(), values@.last() as int) == 0,
            decreases occupancy,
        {
            let found = self.get_smallest_attacker(to_square, side_to_move, occupancy);
            proof {
                lemma_least_attacker(*self, to_square as int, side_to_move, occupancy, found);
            }
            match found {
                Some((next_piece, next_bit)) => {
                    let ghost k = values.len() - 1;
                    let ghost old_occ = occupancy;
                    proof {
                        crate::bits::lemma_clear_decreases(occupancy, next_bit);
                    }
                    occupancy = occupancy & !next_bit;
                    side_to_move = side_to_move.opposite();
                    let v = PIECE_VALUE[next_piece.index()];
                    values.push(v);
                    proof {
                        occs = occs.push(occupancy);
                        sides = sides.push(side_to_move);
                        assert(recapture_gain(*self, to_square as int, sides[k], occs[k], values[k] as int)
                            == {
                                let rest = values[k] - recapture_gain(*self, to_square as int, sides[k + 1], occs[k + 1], values[k + 1] as int);
                                if rest > 0 { rest } else { 0 }
                            });
                    }
                },
                None => {
                    break;
                },
            }
        }

        // Going back from the last capture, each side takes only when it gains.
        let mut gain: i32 = 0;
        let mut j = values.len() - 1;
        while j > 0
            invariant
                0 <= j < values.len(),
                values.len() == occs.len(),
                values.len() == sides.len(),
                forall|k: int| 0 <= k < values.len() ==> 0 <= #[trigger] values[k] <= 32767,
                forall|k: int| 0 <= k < values.len() - 1 ==> {
                    let g = recapture_gain(*self, to_square as int, sides[k + 1], occs[k + 1], values[k + 1] as int);
                    let rest = values[k] - g;
                    #[trigger] recapture_gain(*self, to_square as int, sides[k], occs[k], values[k] as int)
                        == if rest > 0 { rest } else { 0 }
                },
                gain == recapture_gain(*self, to_square as int, sides[j as int], occs[j as int], values[j as int] as int),
                0 <= gain <= 32767,
            decreases j,
        {
            let rest = values[j - 1] - gain;
            proof {
                let k = j - 1;
                assert(recapture_gain(*self, to_square as int, sides[k], occs[k], values[k] as int)
                    == {
                        let g = recapture_gain(*self, to_square as int, sides[k + 1], occs[k + 1], values[k + 1] as int);
                        let rest = values[k] - g;
                        if rest > 0 { rest } else { 0 }
                    });
            }
            gain = if rest > 0 { rest } else { 0 };
            j = j - 1;
        }
        PIECE_VALUE[target_piece.index()] - gain
    }
}

/// Forty points for holding two bishops or more.
pub fn bishop_pair_bonus(count: u8) -> (r: i32)
    ensures
        r == (if count >= 2 { 40i32 } else { 0i32 }),
{
    if count >= 2 {
        return 40;
    }
    0
}

/// The piece-square tables hold values within ninety points.
proof fn lemma_square_tables(pt: int, s: int)
    requires
        0 <= pt < 8,
        0 <= s < 64,
    ensures
        -90 <= OPENING_PIECE_SQUARE[pt][s] <= 90,
        -90 <= ENDING_PIECE_SQUARE[pt][s] <= 90,
{
    let o = OPENING_PIECE_SQUARE[pt];
    let e = ENDING_PIECE_SQUARE[pt];
    assert(forall|i: int| 0 <= i < 64 ==> -90 <= #[trigger] o[i] <= 90 && -90 <= e[i] <= 90) by {
        if pt == 0 {
        } else if pt == 1 {
        } else if pt == 2 {
        } else if pt == 3 {
        } else if pt == 4 {
        } else if pt == 5 {
        } else if pt == 6 {
        } else {
        }
    }
}

/// Mirroring flips the rank and keeps the file.
proof fn lemma_mirror(s: int)
    requires
        0 <= s < 64,
    ensures
        MIRROR64[s] == (7 - s / 8) * 8 + s % 8,
        MIRROR64[s] < 64,
{
    let m = MIRROR64;
    assert(forall|i: int| 0 <= i < 64 ==> #[trigger] m[i] == (7 - i / 8) * 8 + i % 8);
}

/// Whether a piece of type `pt` (of white's side or not) on `sq` attacks `t`, the pieces
/// of `occ` blocking sliders.
pub open spec fn reaches(pt: PieceType, white: bool, sq: int, occ: u64, t: int) -> bool {
    match pt {
        PieceType::PAWN => pawn_capture(white, sq, t),
        PieceType::KNIGHT => knight_move(sq, t),
        PieceType::BISHOP => bishop_sees(occ, sq, t),
        PieceType::ROOK => rook_sees(occ, sq, t),
        PieceType::QUEEN => bishop_sees(occ, sq, t) || rook_sees(occ, sq, t),
        PieceType::KING => king_move(sq, t),
        _ => false,
    }
}

/// Whether `b` holds exactly the squares such a piece attacks.
pub open spec fn is_attack_board(b: u64, pt: PieceType, white: bool, sq: int, occ: u64) -> bool {
    forall|t: int| 0 <= t < 64 ==> #[trigger] bit(b, t) == reaches(pt, white, sq, occ, t)
}

/// The bitboard of the squares such a piece attacks.
pub open spec fn attack_board(pt: PieceType, white: bool, sq: int, occ: u64) -> u64 {
    choose|b: u64| is_attack_board(b, pt, white, sq, occ)
}

/// The squares a piece of type `piece_type` and side `color` on `square` attacks.
fn get_attacks(piece_type: PieceType, color: Color, square: usize, occupancy: u64) -> (r: u64)
    requires
        square < 64,
    ensures
        r == attack_board(piece_type, color == Color::WHITE, square as int, occupancy),
{
    let white = color == Color::WHITE;
    let r = match piece_type {
        PieceType::PAWN => pawn_attacks(white, square),
        PieceType::KNIGHT => knight_attacks(square),
        PieceType::BISHOP => get_bishop_attacks(square, occupancy),
        PieceType::ROOK => get_rook_attacks(square, occupancy),
        PieceType::QUEEN => {
            let b = get_bishop_attacks(square, occupancy);
            let k = get_rook_attacks(square, occupancy);
            proof {
                assert forall|t: int| 0 <= t < 64 implies #[trigger] bit(b | k, t) == (bit(b, t) || bit(k, t)) by {
                    lemma_bit_or(b, k, t as u64);
                }
            }
            b | k
        },
        PieceType::KING => king_attacks(square),
        _ => {
            proof {
                assert forall|t: int| 0 <= t < 64 implies !#[trigger] bit(0u64, t) by {
                    lemma_bit_zero(t as u64);
                }
            }
            0
        },
    };
    proof {
        assert(is_attack_board(r, piece_type, white, square as int, occupancy));
        let c = attack_board(piece_type, white, square as int, occupancy);
        assert(is_attack_board(c, piece_type, white, square as int, occupancy));
        assert(forall|t: int| 0 <= t < 64 ==> bit(c, t) == bit(r, t));
        lemma_bits_ext(c, r);
    }
    r
}

impl Board {
    /// A piece's material and opening piece-square value on `square`, positive for
    /// white and negative for black (black reads the table mirrored).
    pub fn piece_value_at(&self, piece: Piece, square: usize) -> (r: i32)
        requires
            square < 64,
        ensures
            r == (if piece.pcolor() == Color::WHITE {
                PIECE_VALUE[piece.ptype().idx() as int] + OPENING_PIECE_SQUARE[piece.ptype().idx() as int][square as int]
            } else {
                -(PIECE_VALUE[piece.ptype().idx() as int] + OPENING_PIECE_SQUARE[piece.ptype().idx() as int][MIRROR64[square as int] as int])
            }),
    {
        let piece_type = piece.piece_type();
        let color = piece.color();
        proof {
            lemma_mirror(square as int);
            lemma_square_tables(piece_type.idx() as int, square as int);
            lemma_square_tables(piece_type.idx() as int, MIRROR64[square as int] as int);
        }
        let material = PIECE_VALUE[piece_type.index()];
        let piece_square = if color == Color::WHITE {
            OPENING_PIECE_SQUARE[piece_type.index()][square]
        } else {
            OPENING_PIECE_SQUARE[piece_type.index()][MIRROR64[square]]
        };
        let value = material + piece_square;
        if color == Color::WHITE {
            value
        } else {
            -value
        }
    }
}

/// Square `t` lies on a rank in front of `square` (upwards for white, downwards for
/// black) and on the same or a neighbouring file.
pub open spec fn in_front(white: bool, square: int, t: int) -> bool {
    &&& 0 <= t < 64
    &&& (if white { t / 8 > square / 8 } else { t / 8 < square / 8 })
    &&& -1 <= t % 8 - square % 8 <= 1
}

/// The squares in front of a pawn on `square` from which an enemy pawn could stop it:
/// a pawn with none of them holding an enemy pawn is passed.
pub fn passed_pawn_mask(white: bool, square: usize) -> (mask: u64)
    requires
        square < 64,
    ensures
        forall|t: int| 0 <= t < 64 ==> #[trigger] bit(mask, t) == in_front(white, square as int, t),
{
    let rank = square / 8;
    let file = square % 8;
    let mut mask: u64 = 0;
    let (mut r, end) = if white { (rank + 1, 8) } else { (0, rank) };
    proof {
        assert forall|t: int| 0 <= t < 64 implies !#[trigger] bit(mask, t) by {
            crate::bits::lemma_bit_zero(t as u64);
        }
    }
    while r < end
        invariant
            square < 64,
            rank == square / 8,
            file == square % 8,
            end <= 8,
            r <= end || r == rank + 1,
            white ==> end == 8 && rank + 1 <= r,
            !white ==> end == rank,
            forall|t: int| 0 <= t < 64 ==> #[trigger] bit(mask, t) == (in_front(white, square as int, t)
                && (if white { t / 8 < r } else { t / 8 < r })),
        decreases end - r,
    {
        let ghost before = mask;
        let centre = r * 8 + file;
        mask = mask | (1u64 << centre);
        if file > 0 {
            mask = mask | (1u64 << (centre - 1));
        }
        if file < 7 {
            mask = mask | (1u64 << (centre + 1));
        }
        proof {
            assert forall|t: int| 0 <= t < 64 implies #[trigger] bit(mask, t) == (in_front(white, square as int, t)
                && (if white { t / 8 < r + 1 } else { t / 8 < r + 1 })) by {
                let c = centre as u64;
                crate::bits::lemma_bit_single(c, t as u64);
                let m1 = before | (1u64 << c);
                crate::bits::lemma_bit_or(before, 1u64 << c, t as u64);
                if file > 0 {
                    crate::bits::lemma_bit_single((c - 1) as u64, t as u64);
                    crate::bits::lemma_bit_or(m1, 1u64 << ((c - 1) as u64), t as u64);
                }
                let m2 = if file > 0 { m1 | (1u64 << ((c - 1) as u64)) } else { m1 };
                if file < 7 {
                    crate::bits::lemma_bit_single((c + 1) as u64, t as u64);
                    crate::bits::lemma_bit_or(m2, 1u64 << ((c + 1) as u64), t as u64);
                }
            }
        }
        r = r + 1;
    }
    mask
}

/// The passed pawn bonus of a pawn of `white`'s side on `square`, by how far it has
/// advanced.
pub fn passed_pawn_bonus(white: bool, square: usize) -> (r: i32)
    requires
        square < 64,
    ensures
        r == PAWN_PASSED_BONUS[if white { square as int / 8 } else { 7 - square as int / 8 }],
        0 <= r <= 200,
{
    let rank = square / 8;
    let advanced = if white { rank } else { 7 - rank };
    proof {
        let b = PAWN_PASSED_BONUS;
        assert(forall|i: int| 0 <= i < 8 ==> 0 <= #[trigger] b[i] <= 200);
    }
    PAWN_PASSED_BONUS[advanced]
}

/// The passed pawn masks of the white pawns, square by square.
pub fn generate_white_passed_pawn_masks() -> (masks: [u64; 64])
    ensures
        forall|s: int, t: int| 0 <= s < 64 && 0 <= t < 64 ==> #[trigger] bit(masks[s], t) == in_front(true, s, t),
{
    let mut masks = [0u64; 64];
    let mut sq: usize = 0;
    while sq < 64
        invariant
            sq <= 64,
            forall|s: int, t: int| 0 <= s < sq && 0 <= t < 64 ==> #[trigger] bit(masks[s], t) == in_front(true, s, t),
        decreases 64 - sq,
    {
        let m = passed_pawn_mask(true, sq);
        masks[sq] = m;
        sq += 1;
    }
    masks
}

/// The passed pawn masks of the black pawns, square by square.
pub fn generate_black_passed_pawn_masks() -> (masks: [u64; 64])
    ensures
        forall|s: int, t: int| 0 <= s < 64 && 0 <= t < 64 ==> #[trigger] bit(masks[s], t) == in_front(false, s, t),
{
    let mut masks = [0u64; 64];
    let mut sq: usize = 0;
    while sq < 64
        invariant
            sq <= 64,
            forall|s: int, t: int| 0 <= s < sq && 0 <= t < 64 ==> #[trigger] bit(masks[s], t) == in_front(false, s, t),
        decreases 64 - sq,
    {
        let m = passed_pawn_mask(false, sq);
        masks[sq] = m;
        sq += 1;
    }
    masks
}

/// The isolated pawn masks of all squares: for each, the files beside its own.
pub fn generate_isolated_pawn_masks() -> (masks: [u64; 64])
    ensures
        forall|s: int| 0 <= s < 64 ==> #[trigger] masks[s] == isolated_mask(s),
{
    let mut masks = [0u64; 64];
    let mut square: usize = 0;
    while square < 64
        invariant
            square <= 64,
            forall|s: int| 0 <= s < square ==> #[trigger] masks[s] == isolated_mask(s),
        decreases 64 - square,
    {
        masks[square] = isolated_pawn_mask(square);
        square += 1;
    }
    masks
}

/// The mobility and threat tables hold values within a hundred points.
proof fn lemma_mobility_tables()
    ensures
        forall|k: int, i: int| 0 <= k < 2 && 0 <= i < 9 ==> -100 <= #[trigger] KNIGHT_MOBILITY[k][i] <= 100,
        forall|k: int, i: int| 0 <= k < 2 && 0 <= i < 14 ==> -100 <= #[trigger] BISHOP_MOBILITY[k][i] <= 100,
        forall|k: int, i: int| 0 <= k < 2 && 0 <= i < 15 ==> -100 <= #[trigger] ROOK_MOBILITY[k][i] <= 100,
        forall|k: int, i: int| 0 <= k < 2 && 0 <= i < 28 ==> -100 <= #[trigger] QUEEN_MOBILITY[k][i] <= 100,
{
    let (n0, n1) = (KNIGHT_MOBILITY[0], KNIGHT_MOBILITY[1]);
    let (b0, b1) = (BISHOP_MOBILITY[0], BISHOP_MOBILITY[1]);
    let (r0, r1) = (ROOK_MOBILITY[0], ROOK_MOBILITY[1]);
    let (q0, q1) = (QUEEN_MOBILITY[0], QUEEN_MOBILITY[1]);
    assert(forall|i: int| 0 <= i < 9 ==> -100 <= #[trigger] n0[i] <= 100 && -100 <= n1[i] <= 100);
    assert(forall|i: int| 0 <= i < 14 ==> -100 <= #[trigger] b0[i] <= 100 && -100 <= b1[i] <= 100);
    assert(forall|i: int| 0 <= i < 15 ==> -100 <= #[trigger] r0[i] <= 100 && -100 <= r1[i] <= 100);
    assert(forall|i: int| 0 <= i < 28 ==> -100 <= #[trigger] q0[i] <= 100 && -100 <= q1[i] <= 100);
    assert forall|k: int, i: int| 0 <= k < 2 && 0 <= i < 9 implies -100 <= #[trigger] KNIGHT_MOBILITY[k][i] <= 100 by {
        if k == 0 { assert(-100 <= n0[i] <= 100); } else { assert(-100 <= n1[i] <= 100); }
    }
    assert forall|k: int, i: int| 0 <= k < 2 && 0 <= i < 14 implies -100 <= #[trigger] BISHOP_MOBILITY[k][i] <= 100 by {
        if k == 0 { assert(-100 <= b0[i] <= 100); } else { assert(-100 <= b1[i] <= 100); }
    }
    assert forall|k: int, i: int| 0 <= k < 2 && 0 <= i < 15 implies -100 <= #[trigger] ROOK_MOBILITY[k][i] <= 100 by {
        if k == 0 { assert(-100 <= r0[i] <= 100); } else { assert(-100 <= r1[i] <= 100); }
    }
    assert forall|k: int, i: int| 0 <= k < 2 && 0 <= i < 28 implies -100 <= #[trigger] QUEEN_MOBILITY[k][i] <= 100 by {
        if k == 0 { assert(-100 <= q0[i] <= 100); } else { assert(-100 <= q1[i] <= 100); }
    }
}

/// No enemy pawn stands in front of a pawn on `sq`, on its file or the files beside it.
pub open spec fn passed(white: bool, sq: int, enemy_pawns: u64) -> bool {
    forall|t: int| 0 <= t < 64 ==> !(#[trigger] in_front(white, sq, t) && bit(enemy_pawns, t))
}

/// Opening and ending score of a pawn of `white`'s side on `sq`: material, piece-square
/// value, the passed pawn bonus (half of it in the opening) and the isolated pawn
/// penalty.
pub open spec fn pawn_term(white: bool, sq: int, our_pawns: u64, enemy_pawns: u64) -> (int, int) {
    let ms = if white { sq } else { MIRROR64[sq] as int };
    let bonus = if passed(white, sq, enemy_pawns) {
        PAWN_PASSED_BONUS[if white { sq / 8 } else { 7 - sq / 8 }] as int
    } else {
        0
    };
    let iso = if our_pawns & isolated_mask(sq) == 0 { PAWN_ISOLATED as int } else { 0 };
    (PIECE_VALUE[1] + OPENING_PIECE_SQUARE[1][ms] + bonus / 2 + iso, PIECE_VALUE[1] + ENDING_PIECE_SQUARE[1][ms] + bonus + iso)
}

/// The scores of the pawns on the squares of `bb`, lowest square first.
pub open spec fn pawn_total(white: bool, bb: u64, our_pawns: u64, enemy_pawns: u64) -> (int, int)
    decreases bb,
{
    if bb == 0 {
        (0, 0)
    } else {
        proof {
            lemma_popcount_decreases(bb);
        }
        let t = pawn_term(white, lsb(bb), our_pawns, enemy_pawns);
        let rest = pawn_total(white, bb & ((bb - 1) as u64), our_pawns, enemy_pawns);
        (t.0 + rest.0, t.1 + rest.1)
    }
}

/// The scores of the pieces of type `pt` on the squares of `bb`, lowest square first.
pub open spec fn piece_total(pt: PieceType, bb: u64, ctx: ScoringContext) -> (int, int)
    decreases bb,
{
    if bb == 0 {
        (0, 0)
    } else {
        proof {
            lemma_popcount_decreases(bb);
        }
        let t = piece_term(pt, lsb(bb), ctx);
        let rest = piece_total(pt, bb & ((bb - 1) as u64), ctx);
        (t.0 + rest.0, t.1 + rest.1)
    }
}

/// A mask is clear of the enemy pawns exactly when no enemy pawn is in front.
proof fn lemma_passed(mask: u64, enemy_pawns: u64, white: bool, sq: int)
    requires
        forall|t: int| 0 <= t < 64 ==> #[trigger] bit(mask, t) == in_front(white, sq, t),
    ensures
        (mask & enemy_pawns == 0) == passed(white, sq, enemy_pawns),
{
    lemma_zero_iff_no_bits(mask & enemy_pawns);
    assert forall|t: int| 0 <= t < 64 implies #[trigger] bit(mask & enemy_pawns, t) == (bit(mask, t) && bit(enemy_pawns, t)) by {
        lemma_bit_and(mask, enemy_pawns, t as u64);
    }
    if !passed(white, sq, enemy_pawns) {
        let t = choose|t: int| 0 <= t < 64 && !!(#[trigger] in_front(white, sq, t) && bit(enemy_pawns, t));
        assert(bit(mask & enemy_pawns, t));
    }
}

/// Opening and ending scores of one side's pawns: material, piece-square value, the
/// passed pawn bonus (half of it in the opening) and the isolated pawn penalty.
fn pawn_scores(white: bool, our_pawns: u64, enemy_pawns: u64) -> (r: (i32, i32))
    ensures
        -25600 <= r.0 <= 25600,
        -25600 <= r.1 <= 25600,
        r.0 == pawn_total(white, our_pawns, our_pawns, enemy_pawns).0,
        r.1 == pawn_total(white, our_pawns, our_pawns, enemy_pawns).1,
{
    let mut open: i32 = 0;
    let mut end: i32 = 0;
    let mut bitboard = our_pawns;
    proof {
        lemma_popcount_le_64(our_pawns);
    }
    while bitboard != 0
        invariant
            popcount(bitboard) <= 64,
            -(64 - popcount(bitboard)) * 400 <= open <= (64 - popcount(bitboard)) * 400,
            -(64 - popcount(bitboard)) * 400 <= end <= (64 - popcount(bitboard)) * 400,
            open + pawn_total(white, bitboard, our_pawns, enemy_pawns).0 == pawn_total(white, our_pawns, our_pawns, enemy_pawns).0,
            end + pawn_total(white, bitboard, our_pawns, enemy_pawns).1 == pawn_total(white, our_pawns, our_pawns, enemy_pawns).1,
        decreases bitboard,
    {
        let square = lowest_square(bitboard);
        let next = without_lowest(bitboard);
        proof {
            lemma_mirror(square as int);
            lemma_square_tables(1, square as int);
            lemma_square_tables(1, MIRROR64[square as int] as int);
        }
        let map_square = if white { square } else { MIRROR64[square] };
        open += PIECE_VALUE[1] + OPENING_PIECE_SQUARE[1][map_square];
        end += PIECE_VALUE[1] + ENDING_PIECE_SQUARE[1][map_square];

        let mask = passed_pawn_mask(white, square);
        proof {
            lemma_passed(mask, enemy_pawns, white, square as int);
        }
        if mask & enemy_pawns == 0 {
            let bonus = passed_pawn_bonus(white, square);
            open += bonus / 2;
            end += bonus;
        }

        if our_pawns & isolated_pawn_mask(square) == 0 {
            open += PAWN_ISOLATED;
            end += PAWN_ISOLATED;
        }
        bitboard = next;
    }
    (open, end)
}

/// The context a piece is scored in: the occupied squares, its own side's, the squares
/// enemy pawns attack, and both sides' pawns.
pub struct ScoringContext {
    pub white: bool,
    pub all_occupancy: u64,
    pub our_occupancy: u64,
    pub enemy_pawn_attacks: u64,
    pub our_pawns: u64,
    pub enemy_pawns: u64,
}

/// A mobility count, capped at the last entry of its table.
pub open spec fn capped(m: int, cap: int) -> int {
    if m < cap {
        m
    } else {
        cap
    }
}

/// The bonus of a rook or queen on `sq`: for a file without pawns, else for one without
/// pawns of its own side.
pub open spec fn file_bonus(open_bonus: int, semi_bonus: int, sq: int, our_pawns: u64, enemy_pawns: u64) -> int {
    let fm = FILE_MASKS[sq % 8];
    if fm & (our_pawns | enemy_pawns) == 0 {
        open_bonus
    } else if fm & our_pawns == 0 {
        semi_bonus
    } else {
        0
    }
}

/// The opening penalty of a king on `sq` for the pawns missing from its shield.
pub open spec fn shield_penalty(sq: int, our_pawns: u64) -> int {
    let m = PAWN_SHIELD[sq];
    if m == 0 {
        0
    } else {
        let missing = popcount(m) - popcount(m & our_pawns);
        if missing == 1 {
            10
        } else if missing == 2 {
            15
        } else if missing == 3 {
            25
        } else {
            0
        }
    }
}

/// Whether an enemy pawn attacks `sq`.
pub open spec fn pawn_threatened(sq: int, ctx: ScoringContext) -> bool {
    (1u64 << (sq as u64)) & ctx.enemy_pawn_attacks != 0
}

/// The number of squares a piece of type `pt` on `sq` attacks that its side does not hold.
pub open spec fn mobility(pt: PieceType, sq: int, ctx: ScoringContext) -> int {
    popcount(attack_board(pt, ctx.white, sq, ctx.all_occupancy) & !ctx.our_occupancy) as int
}

/// What a piece's mobility, a pawn threat, open files and the pawn shield add to its
/// opening and ending score.
pub open spec fn piece_extra(pt: PieceType, mob: int, threat: bool, sq: int, ctx: ScoringContext) -> (int, int) {
    match pt {
        PieceType::KNIGHT => (
            KNIGHT_MOBILITY[0][capped(mob, 8)] + (if threat { PAWN_THREAT_ON_KNIGHT[0] as int } else { 0 }),
            KNIGHT_MOBILITY[1][capped(mob, 8)] + (if threat { PAWN_THREAT_ON_KNIGHT[1] as int } else { 0 }),
        ),
        PieceType::BISHOP => (
            BISHOP_MOBILITY[0][capped(mob, 13)] + (if threat { PAWN_THREAT_ON_BISHOP[0] as int } else { 0 }),
            BISHOP_MOBILITY[1][capped(mob, 13)] + (if threat { PAWN_THREAT_ON_BISHOP[1] as int } else { 0 }),
        ),
        PieceType::ROOK => {
            let f = file_bonus(ROOK_OPEN_FILE_BONUS as int, ROOK_SEMI_OPEN_FILE_BONUS as int, sq, ctx.our_pawns, ctx.enemy_pawns);
            (
                ROOK_MOBILITY[0][capped(mob, 14)] + (if threat { PAWN_THREAT_ON_ROOK[0] as int } else { 0 }) + f,
                ROOK_MOBILITY[1][capped(mob, 14)] + (if threat { PAWN_THREAT_ON_ROOK[1] as int } else { 0 }) + f,
            )
        },
        PieceType::QUEEN => {
            let f = file_bonus(QUEEN_OPEN_FILE_BONUS as int, QUEEN_SEMI_OPEN_FILE_BONUS as int, sq, ctx.our_pawns, ctx.enemy_pawns);
            (
                QUEEN_MOBILITY[0][capped(mob, 27)] + (if threat { PAWN_THREAT_ON_QUEEN[0] as int } else { 0 }) + f,
                QUEEN_MOBILITY[1][capped(mob, 27)] + (if threat { PAWN_THREAT_ON_QUEEN[1] as int } else { 0 }) + f,
            )
        },
        PieceType::KING => (-shield_penalty(sq, ctx.our_pawns), 0),
        _ => (0, 0),
    }
}

/// Opening and ending score of a piece of type `pt` on `sq` (a pawn is scored apart):
/// material and piece-square value, then what `piece_extra` adds.
pub open spec fn piece_term(pt: PieceType, sq: int, ctx: ScoringContext) -> (int, int) {
    let ms = if ctx.white { sq } else { MIRROR64[sq] as int };
    let p = pt.idx() as int;
    let x = piece_extra(pt, mobility(pt, sq, ctx), pawn_threatened(sq, ctx), sq, ctx);
    (PIECE_VALUE[p] + OPENING_PIECE_SQUARE[p][ms] + x.0, PIECE_VALUE[p] + ENDING_PIECE_SQUARE[p][ms] + x.1)
}

/// What mobility, a pawn threat, open files and the pawn shield add to a piece's scores.
fn extra_terms(piece_type: PieceType, mobility: usize, threatened: bool, square: usize, ctx: &ScoringContext) -> (r: (i32, i32))
    requires
        square < 64,
        mobility <= 64,
    ensures
        -200 <= r.0 <= 200,
        -200 <= r.1 <= 200,
        r.0 == piece_extra(piece_type, mobility as int, threatened, square as int, *ctx).0,
        r.1 == piece_extra(piece_type, mobility as int, threatened, square as int, *ctx).1,
{
    proof {
        lemma_mobility_tables();
    }
    let mut open: i32 = 0;
    let mut end: i32 = 0;
    match piece_type {
        PieceType::KNIGHT => {
            let index = if mobility < 8 { mobility } else { 8 };
            open += KNIGHT_MOBILITY[0][index];
            end += KNIGHT_MOBILITY[1][index];
            if threatened {
                open += PAWN_THREAT_ON_KNIGHT[0];
                end += PAWN_THREAT_ON_KNIGHT[1];
            }
        },
        PieceType::BISHOP => {
            let index = if mobility < 13 { mobility } else { 13 };
            open += BISHOP_MOBILITY[0][index];
            end += BISHOP_MOBILITY[1][index];
            if threatened {
                open += PAWN_THREAT_ON_BISHOP[0];
                end += PAWN_THREAT_ON_BISHOP[1];
            }
        },
        PieceType::ROOK | PieceType::QUEEN => {
            let bonuses: [i32; 2];
            if piece_type == PieceType::ROOK {
                bonuses = [ROOK_OPEN_FILE_BONUS, ROOK_SEMI_OPEN_FILE_BONUS];
                let index = if mobility < 14 { mobility } else { 14 };
                open += ROOK_MOBILITY[0][index];
                end += ROOK_MOBILITY[1][index];
                if threatened {
                    open += PAWN_THREAT_ON_ROOK[0];
                    end += PAWN_THREAT_ON_ROOK[1];
                }
            } else {
                bonuses = [QUEEN_OPEN_FILE_BONUS, QUEEN_SEMI_OPEN_FILE_BONUS];
                let index = if mobility < 27 { mobility } else { 27 };
                open += QUEEN_MOBILITY[0][index];
                end += QUEEN_MOBILITY[1][index];
                if threatened {
                    open += PAWN_THREAT_ON_QUEEN[0];
                    end += PAWN_THREAT_ON_QUEEN[1];
                }
            }
            let file_mask = FILE_MASKS[square % 8];
            let open_file = file_mask & (ctx.our_pawns | ctx.enemy_pawns) == 0;
            let semi_open_file = file_mask & ctx.our_pawns == 0;
            let ghost before = (open, end);
            if open_file {
                open += bonuses[0];
                end += bonuses[0];
            } else if semi_open_file {
                open += bonuses[1];
                end += bonuses[1];
            }
            proof {
                let f = file_bonus(bonuses[0] as int, bonuses[1] as int, square as int, ctx.our_pawns, ctx.enemy_pawns);
                assert(open == before.0 + f && end == before.1 + f);
            }
        },
        PieceType::KING => {
            let shield_mask = PAWN_SHIELD[square];
            if shield_mask != 0 {
                let shield = shield_mask & ctx.our_pawns;
                let pawn_count = count_bits(shield) as i32;
                let max_pawns = count_bits(shield_mask) as i32;
                let missing = max_pawns - pawn_count;
                if missing == 1 {
                    open -= 10;
                } else if missing == 2 {
                    open -= 15;
                } else if missing == 3 {
                    open -= 25;
                }
            }
        },
        _ => {},
    }
    (open, end)
}

/// Opening and ending score of a piece of type `piece_type` on `square`: material,
/// piece-square value, mobility, a penalty when an enemy pawn attacks it, open files
/// for rooks and queens, and the pawn shield for the king.
fn piece_terms(piece_type: PieceType, square: usize, ctx: &ScoringContext) -> (r: (i32, i32))
    requires
        square < 64,
        piece_type != PieceType::NONE,
    ensures
        -34000 <= r.0 <= 34000,
        -34000 <= r.1 <= 34000,
        r.0 == piece_term(piece_type, square as int, *ctx).0,
        r.1 == piece_term(piece_type, square as int, *ctx).1,
{
    let color = if ctx.white { Color::WHITE } else { Color::BLACK };
    proof {
        lemma_mirror(square as int);
        lemma_square_tables(piece_type.idx() as int, square as int);
        lemma_square_tables(piece_type.idx() as int, MIRROR64[square as int] as int);
    }
    let map_square = if ctx.white { square } else { MIRROR64[square] };
    let pt = piece_type.index();
    let attacks = get_attacks(piece_type, color, square, ctx.all_occupancy);
    let valid_moves = attacks & !ctx.our_occupancy;
    let mobility = count_bits(valid_moves) as usize;
    let is_attacked_by_pawn = ((1u64 << square) & ctx.enemy_pawn_attacks) != 0;
    let (extra_open, extra_end) = extra_terms(piece_type, mobility, is_attacked_by_pawn, square, ctx);
    let open: i32 = PIECE_VALUE[pt] + OPENING_PIECE_SQUARE[pt][map_square] + extra_open;
    let end: i32 = PIECE_VALUE[pt] + ENDING_PIECE_SQUARE[pt][map_square] + extra_end;
    (open, end)
}

/// Opening and ending scores of the pieces of one type on the squares of `pieces`, and
/// how many there are.
fn piece_scores(piece_type: PieceType, pieces: u64, ctx: &ScoringContext) -> (r: (i32, i32, u8))
    requires
        piece_type != PieceType::NONE,
    ensures
        -2176000 <= r.0 <= 2176000,
        -2176000 <= r.1 <= 2176000,
        r.2 == popcount(pieces),
        r.0 == piece_total(piece_type, pieces, *ctx).0,
        r.1 == piece_total(piece_type, pieces, *ctx).1,
{
    let mut open: i32 = 0;
    let mut end: i32 = 0;
    let mut count: u8 = 0;
    let mut bitboard = pieces;
    proof {
        lemma_popcount_le_64(pieces);
    }
    while bitboard != 0
        invariant
            piece_type != PieceType::NONE,
            popcount(bitboard) <= 64,
            count + popcount(bitboard) == popcount(pieces),
            popcount(pieces) <= 64,
            -(64 - popcount(bitboard)) * 34000 <= open <= (64 - popcount(bitboard)) * 34000,
            -(64 - popcount(bitboard)) * 34000 <= end <= (64 - popcount(bitboard)) * 34000,
            open + piece_total(piece_type, bitboard, *ctx).0 == piece_total(piece_type, pieces, *ctx).0,
            end + piece_total(piece_type, bitboard, *ctx).1 == piece_total(piece_type, pieces, *ctx).1,
        decreases bitboard,
    {
        let square = lowest_square(bitboard);
        let next = without_lowest(bitboard);
        let (o, e) = piece_terms(piece_type, square, ctx);
        open += o;
        end += e;
        count += 1;
        bitboard = next;
    }
    (open, end, count)
}

/// The bitboard of `color`'s pieces of type `pt`.
pub open spec fn side_board(pos: Board, pt: PieceType, color: Color) -> u64 {
    pos.bitboards[(pt.idx() * 4 + color.idx()) as int]
}

/// The context `color`'s pieces are scored in.
pub open spec fn scoring_context(pos: Board, color: Color) -> ScoringContext {
    let white = color == Color::WHITE;
    let enemy_pawns = side_board(pos, PieceType::PAWN, color.flip());
    ScoringContext {
        white,
        all_occupancy: pos.occupancies[0] | pos.occupancies[1],
        our_occupancy: pos.occupancies[color.idx() as int],
        enemy_pawn_attacks: if white {
            ((enemy_pawns >> 7u64) & !FILE_MASKS[0]) | ((enemy_pawns >> 9u64) & !FILE_MASKS[7])
        } else {
            ((enemy_pawns << 7u64) & !FILE_MASKS[7]) | ((enemy_pawns << 9u64) & !FILE_MASKS[0])
        },
        our_pawns: side_board(pos, PieceType::PAWN, color),
        enemy_pawns,
    }
}

/// Opening and ending scores of `color`'s pieces, with the bishop pair bonus.
#[verifier::opaque]
pub open spec fn side_scores(pos: Board, color: Color) -> (int, int) {
    let ctx = scoring_context(pos, color);
    let p = pawn_total(ctx.white, ctx.our_pawns, ctx.our_pawns, ctx.enemy_pawns);
    let n = piece_total(PieceType::KNIGHT, side_board(pos, PieceType::KNIGHT, color), ctx);
    let b = piece_total(PieceType::BISHOP, side_board(pos, PieceType::BISHOP, color), ctx);
    let r = piece_total(PieceType::ROOK, side_board(pos, PieceType::ROOK, color), ctx);
    let q = piece_total(PieceType::QUEEN, side_board(pos, PieceType::QUEEN, color), ctx);
    let k = piece_total(PieceType::KING, side_board(pos, PieceType::KING, color), ctx);
    let d = piece_total(PieceType::DRAGON, side_board(pos, PieceType::DRAGON, color), ctx);
    let pair = if popcount(side_board(pos, PieceType::BISHOP, color)) >= 2 { 40int } else { 0int };
    (p.0 + n.0 + b.0 + r.0 + q.0 + k.0 + d.0 + pair, p.1 + n.1 + b.1 + r.1 + q.1 + k.1 + d.1 + pair)
}

/// Opening and ending scores of one side: pawns, then knights, bishops, rooks, queens,
/// king and dragons, and the bishop pair bonus.
fn evaluate_helper(position: &Board, color: Color) -> (r: (i32, i32))
    requires
        color.is_side(),
    ensures
        -13200000 <= r.0 <= 13200000,
        -13200000 <= r.1 <= 13200000,
        r.0 == side_scores(*position, color).0,
        r.1 == side_scores(*position, color).1,
{
    let white = color == Color::WHITE;
    let our_pawns = position.bitboards[PieceType::PAWN.bb_index(color)];
    let enemy_pawns = position.bitboards[PieceType::PAWN.bb_index(color.opposite())];
    let enemy_pawn_attacks = if white {
        ((enemy_pawns >> 7u64) & !FILE_MASKS[0]) | ((enemy_pawns >> 9u64) & !FILE_MASKS[7])
    } else {
        ((enemy_pawns << 7u64) & !FILE_MASKS[7]) | ((enemy_pawns << 9u64) & !FILE_MASKS[0])
    };
    let ctx = ScoringContext {
        white,
        all_occupancy: position.occupancies[0] | position.occupancies[1],
        our_occupancy: position.occupancies[color.index()],
        enemy_pawn_attacks,
        our_pawns,
        enemy_pawns,
    };
    proof {
        assert(ctx == scoring_context(*position, color));
        reveal(side_scores);
    }

    let (pawn_open, pawn_end) = pawn_scores(white, our_pawns, enemy_pawns);
    let (knight_open, knight_end, _) = piece_scores(PieceType::KNIGHT, position.bitboards[PieceType::KNIGHT.bb_index(color)], &ctx);
    let (bishop_open, bishop_end, bishop_count) = piece_scores(PieceType::BISHOP, position.bitboards[PieceType::BISHOP.bb_index(color)], &ctx);
    let (rook_open, rook_end, _) = piece_scores(PieceType::ROOK, position.bitboards[PieceType::ROOK.bb_index(color)], &ctx);
    let (queen_open, queen_end, _) = piece_scores(PieceType::QUEEN, position.bitboards[PieceType::QUEEN.bb_index(color)], &ctx);
    let (king_open, king_end, _) = piece_scores(PieceType::KING, position.bitboards[PieceType::KING.bb_index(color)], &ctx);
    let (dragon_open, dragon_end, _) = piece_scores(PieceType::DRAGON, position.bitboards[PieceType::DRAGON.bb_index(color)], &ctx);

    let bishop_bonus = bishop_pair_bonus(bishop_count);
    let open = pawn_open + knight_open + bishop_open + rook_open + queen_open + king_open + dragon_open + bishop_bonus;
    let end = pawn_end + knight_end + bishop_end + rook_end + queen_end + king_end + dragon_end + bishop_bonus;
    (open, end)
}

/// The game phase, from 0 with the starting knights, bishops, rooks and queens on the
/// board to 256 with none of them, rounded.
pub open spec fn game_phase(b: Board) -> int {
    let knights = popcount(b.bitboards[Piece::WHITE_KNIGHT.idx() as int] | b.bitboards[Piece::BLACK_KNIGHT.idx() as int]) as int;
    let bishops = popcount(b.bitboards[Piece::WHITE_BISHOP.idx() as int] | b.bitboards[Piece::BLACK_BISHOP.idx() as int]) as int;
    let rooks = popcount(b.bitboards[Piece::WHITE_ROOK.idx() as int] | b.bitboards[Piece::BLACK_ROOK.idx() as int]) as int;
    let queens = popcount(b.bitboards[Piece::WHITE_QUEEN.idx() as int] | b.bitboards[Piece::BLACK_QUEEN.idx() as int]) as int;
    let total = knights * PHASE_VALUES[2] + bishops * PHASE_VALUES[3] + rooks * PHASE_VALUES[4] + queens * PHASE_VALUES[5];
    let phase = TOTAL_PHASE - (if total < TOTAL_PHASE { total } else { TOTAL_PHASE as int });
    (phase * 256 + TOTAL_PHASE / 2) / (TOTAL_PHASE as int)
}

/// Division that rounds toward zero, as machine division does.
pub open spec fn trunc_div(x: int, d: int) -> int {
    if x >= 0 {
        x / d
    } else {
        -((-x) / d)
    }
}

/// The static evaluation: white's opening and ending scores less black's, weighted by
/// the phase out of 256, from the side to move's point of view.
#[verifier::opaque]
pub open spec fn evaluation(b: Board) -> int {
    let phase = game_phase(b);
    let w = side_scores(b, Color::WHITE);
    let k = side_scores(b, Color::BLACK);
    let blended = trunc_div((w.0 - k.0) * (256 - phase) + (w.1 - k.1) * phase, 256);
    if b.side == Color::WHITE {
        blended
    } else {
        -blended
    }
}

/// The evaluation is from the side to move's point of view: the same pieces with the
/// other side to move evaluate to the negated score.
pub proof fn lemma_evaluation_turns_with_side(a: Board, b: Board)
    requires
        a.bitboards == b.bitboards,
        a.occupancies == b.occupancies,
        a.side == Color::WHITE,
        b.side == Color::BLACK,
    ensures
        evaluation(b) == -evaluation(a),
{
    reveal(evaluation);
    reveal(side_scores);
    assert(game_phase(a) == game_phase(b));
    assert(scoring_context(a, Color::WHITE) == scoring_context(b, Color::WHITE));
    assert(scoring_context(a, Color::BLACK) == scoring_context(b, Color::BLACK));
    assert(side_scores(a, Color::WHITE) == side_scores(b, Color::WHITE));
    assert(side_scores(a, Color::BLACK) == side_scores(b, Color::BLACK));
}

/// No piece of type `pt`, of either colour, stands on the board: both bitboards are empty.
proof fn lemma_type_absent(b: Board, pt: PieceType)
    requires
        b.bb_ok(),
        pt != PieceType::NONE,
        pt != PieceType::DRAGON,
        forall|s: int| 0 <= s < 64 ==> (#[trigger] b.pieces@[s]).ptype() != pt,
    ensures
        b.bitboards[Piece::of(pt, Color::WHITE).idx() as int] | b.bitboards[Piece::of(pt, Color::BLACK).idx() as int] == 0,
{
    reveal(Board::bb_ok);
    let w = b.bitboards[Piece::of(pt, Color::WHITE).idx() as int];
    let k = b.bitboards[Piece::of(pt, Color::BLACK).idx() as int];
    assert forall|t: int| 0 <= t < 64 implies !bit(w | k, t) by {
        lemma_bit_or(w, k, t as u64);
        crate::defs::lemma_piece_index_roundtrip(b.pieces@[t]);
        assert(b.pieces@[t].ptype() != pt);
    }
    lemma_zero_iff_no_bits(w | k);
}

/// The evaluation as the blend of the opening and ending differences by the phase.
#[verifier::spinoff_prover]
proof fn lemma_evaluation_blend(b: Board, o: int, e: int, phase: int)
    requires
        o == side_scores(b, Color::WHITE).0 - side_scores(b, Color::BLACK).0,
        e == side_scores(b, Color::WHITE).1 - side_scores(b, Color::BLACK).1,
        phase == game_phase(b),
    ensures
        b.side == Color::WHITE ==> evaluation(b) == trunc_div(o * (256 - phase) + e * phase, 256),
        b.side != Color::WHITE ==> evaluation(b) == -trunc_div(o * (256 - phase) + e * phase, 256),
{
    reveal(evaluation);
    let w = side_scores(b, Color::WHITE);
    let k = side_scores(b, Color::BLACK);
    let x = trunc_div((w.0 - k.0) * (256 - game_phase(b)) + (w.1 - k.1) * game_phase(b), 256);
    assert(x == trunc_div(o * (256 - phase) + e * phase, 256));
    if b.side == Color::WHITE {
        assert(evaluation(b) == x);
    } else {
        assert(evaluation(b) == -x);
    }
}

/// The phase of a board whose knights, bishops, rooks and queens number `n`, `bi`, `r`
/// and `q`.
proof fn lemma_phase_of_counts(b: Board, n: int, bi: int, r: int, q: int)
    requires
        n == popcount(b.bitboards[Piece::WHITE_KNIGHT.idx() as int] | b.bitboards[Piece::BLACK_KNIGHT.idx() as int]),
        bi == popcount(b.bitboards[Piece::WHITE_BISHOP.idx() as int] | b.bitboards[Piece::BLACK_BISHOP.idx() as int]),
        r == popcount(b.bitboards[Piece::WHITE_ROOK.idx() as int] | b.bitboards[Piece::BLACK_ROOK.idx() as int]),
        q == popcount(b.bitboards[Piece::WHITE_QUEEN.idx() as int] | b.bitboards[Piece::BLACK_QUEEN.idx() as int]),
    ensures
        n + bi + 2 * r + 4 * q >= 24 ==> game_phase(b) == 0,
        n + bi + 2 * r + 4 * q == 0 ==> game_phase(b) == 256,
{
    assert(PHASE_VALUES[2] == 1 && PHASE_VALUES[3] == 1 && PHASE_VALUES[4] == 2 && PHASE_VALUES[5] == 4);
    assert(TOTAL_PHASE == 24);
}

/// With no knight, bishop, rook or queen left on the board the game is in its ending:
/// the evaluation is the difference of the two sides' ending scores alone, from the
/// side to move's point of view.
pub proof fn lemma_evaluation_in_ending(b: Board)
    requires
        b.bb_ok(),
        forall|s: int| 0 <= s < 64 ==> {
            let t = (#[trigger] b.pieces@[s]).ptype();
            t != PieceType::KNIGHT && t != PieceType::BISHOP && t != PieceType::ROOK && t != PieceType::QUEEN
        },
    ensures
        b.side == Color::WHITE ==> evaluation(b) == side_scores(b, Color::WHITE).1 - side_scores(b, Color::BLACK).1,
        b.side != Color::WHITE ==> evaluation(b) == side_scores(b, Color::BLACK).1 - side_scores(b, Color::WHITE).1,
{
    lemma_type_absent(b, PieceType::KNIGHT);
    lemma_type_absent(b, PieceType::BISHOP);
    lemma_type_absent(b, PieceType::ROOK);
    lemma_type_absent(b, PieceType::QUEEN);
    assert(popcount(0) == 0);
    lemma_phase_of_counts(b, 0, 0, 0, 0);
    let o = side_scores(b, Color::WHITE).0 - side_scores(b, Color::BLACK).0;
    let e = side_scores(b, Color::WHITE).1 - side_scores(b, Color::BLACK).1;
    lemma_evaluation_blend(b, o, e, 256);
    assert(o * (256 - 256) + e * 256 == e * 256) by (nonlinear_arith);
    assert(trunc_div(e * 256, 256) == e) by (nonlinear_arith);
}

/// With at least the starting knights, bishops, rooks and queens on the board (four,
/// four, four and two) the game is in its opening: the evaluation is the difference of
/// the two sides' opening scores alone, from the side to move's point of view.
pub proof fn lemma_evaluation_in_opening(b: Board)
    requires
        squares_below(b.bitboards[Piece::WHITE_KNIGHT.idx() as int] | b.bitboards[Piece::BLACK_KNIGHT.idx() as int], 64) >= 4,
        squares_below(b.bitboards[Piece::WHITE_BISHOP.idx() as int] | b.bitboards[Piece::BLACK_BISHOP.idx() as int], 64) >= 4,
        squares_below(b.bitboards[Piece::WHITE_ROOK.idx() as int] | b.bitboards[Piece::BLACK_ROOK.idx() as int], 64) >= 4,
        squares_below(b.bitboards[Piece::WHITE_QUEEN.idx() as int] | b.bitboards[Piece::BLACK_QUEEN.idx() as int], 64) >= 2,
    ensures
        b.side == Color::WHITE ==> evaluation(b) == side_scores(b, Color::WHITE).0 - side_scores(b, Color::BLACK).0,
        b.side != Color::WHITE ==> evaluation(b) == side_scores(b, Color::BLACK).0 - side_scores(b, Color::WHITE).0,
{
    let nb = b.bitboards[Piece::WHITE_KNIGHT.idx() as int] | b.bitboards[Piece::BLACK_KNIGHT.idx() as int];
    let bb = b.bitboards[Piece::WHITE_BISHOP.idx() as int] | b.bitboards[Piece::BLACK_BISHOP.idx() as int];
    let rb = b.bitboards[Piece::WHITE_ROOK.idx() as int] | b.bitboards[Piece::BLACK_ROOK.idx() as int];
    let qb = b.bitboards[Piece::WHITE_QUEEN.idx() as int] | b.bitboards[Piece::BLACK_QUEEN.idx() as int];
    lemma_popcount_counts_squares(nb);
    lemma_popcount_counts_squares(bb);
    lemma_popcount_counts_squares(rb);
    lemma_popcount_counts_squares(qb);
    lemma_phase_of_counts(b, popcount(nb) as int, popcount(bb) as int, popcount(rb) as int, popcount(qb) as int);
    let o = side_scores(b, Color::WHITE).0 - side_scores(b, Color::BLACK).0;
    let e = side_scores(b, Color::WHITE).1 - side_scores(b, Color::BLACK).1;
    lemma_evaluation_blend(b, o, e, 0);
    assert(o * (256 - 0) + e * 0 == o * 256) by (nonlinear_arith);
    assert(trunc_div(o * 256, 256) == o) by (nonlinear_arith);
}

impl Board {
    /// Static evaluation from the side to move's point of view: white's opening and
    /// ending scores less black's, blended by the game phase (the fewer knights,
    /// bishops, rooks and queens, the more the ending score counts).
    pub fn evaluate(&self) -> (r: i32)
        requires
            self.side.is_side(),
        ensures
            r == evaluation(*self),
            -27000000 <= r <= 27000000,
    {
        let knights = count_bits(self.bitboards[Piece::WHITE_KNIGHT.index()] | self.bitboards[Piece::BLACK_KNIGHT.index()]) as i32;
        let bishops = count_bits(self.bitboards[Piece::WHITE_BISHOP.index()] | self.bitboards[Piece::BLACK_BISHOP.index()]) as i32;
        let rooks = count_bits(self.bitboards[Piece::WHITE_ROOK.index()] | self.bitboards[Piece::BLACK_ROOK.index()]) as i32;
        let queens = count_bits(self.bitboards[Piece::WHITE_QUEEN.index()] | self.bitboards[Piece::BLACK_QUEEN.index()]) as i32;
        let total_material_on_board = knights * PHASE_VALUES[2] + bishops * PHASE_VALUES[3] + rooks * PHASE_VALUES[4] + queens * PHASE_VALUES[5];

        let mut phase = TOTAL_PHASE - if total_material_on_board < TOTAL_PHASE { total_material_on_board } else { TOTAL_PHASE };
        phase = (phase * 256 + (TOTAL_PHASE / 2)) / TOTAL_PHASE;

        let (white_open_score, white_end_score) = evaluate_helper(self, Color::WHITE);
        let (black_open_score, black_end_score) = evaluate_helper(self, Color::BLACK);

        let open_score = white_open_score - black_open_score;
        let end_score = white_end_score - black_end_score;
        let w_open = (256 - phase) as i64;
        let w_end = phase as i64;
        proof {
            assert(0 <= phase <= 256);
            assert(-26400000 * 256 <= open_score as i64 * w_open <= 26400000 * 256) by (nonlinear_arith)
                requires
                    0 <= w_open <= 256,
                    -26400000 <= open_score <= 26400000,
            ;
            assert(-26400000 * 256 <= end_score as i64 * w_end <= 26400000 * 256) by (nonlinear_arith)
                requires
                    0 <= w_end <= 256,
                    -26400000 <= end_score <= 26400000,
            ;
            assert(-26400000 * 256 <= open_score as i64 * w_open + end_score as i64 * w_end <= 26400000 * 256) by (nonlinear_arith)
                requires
                    0 <= w_open,
                    0 <= w_end,
                    w_open + w_end == 256,
                    -26400000 <= open_score <= 26400000,
                    -26400000 <= end_score <= 26400000,
            ;
        }
        let mixed = open_score as i64 * w_open + end_score as i64 * w_end;
        let blended = mixed / 256;
        proof {
            assert(phase == game_phase(*self));
            assert(blended == trunc_div(mixed as int, 256));
            reveal(evaluation);
        }
        let score = blended as i32;
        if self.side == Color::WHITE {
            score
        } else {
            -score
        }
    }
}

} // verus!
