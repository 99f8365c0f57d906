//! Bitboard primitives: one bit per square, bit `sq` set when the square is in the set.
use vstd::prelude::*;
use vstd::std_specs::bits::{u64_trailing_zeros, axiom_u64_trailing_zeros};

verus! {

/// Whether square `sq` is in bitboard `bb`.
pub open spec fn bit(bb: u64, sq: int) -> bool {
    (bb >> (sq as u64)) & 1u64 == 1u64
}

pub proof fn lemma_bit_single(s: u64, t: u64)
    requires
        s < 64,
        t < 64,
    ensures
        bit(1u64 << s, t as int) == (s == t),
{
    assert(((1u64 << s) >> t) & 1u64 == 1u64 <==> s == t) by (bit_vector)
        requires
            s < 64,
            t < 64,
    ;
}

pub proof fn lemma_bit_or(a: u64, b: u64, t: u64)
    requires
        t < 64,
    ensures
        bit(a | b, t as int) == (bit(a, t as int) || bit(b, t as int)),
{
    assert(((a | b) >> t) & 1u64 == 1u64 <==> ((a >> t) & 1u64 == 1u64 || (b >> t) & 1u64 == 1u64))
        by (bit_vector);
}

pub proof fn lemma_bit_and(a: u64, b: u64, t: u64)
    requires
        t < 64,
    ensures
        bit(a & b, t as int) == (bit(a, t as int) && bit(b, t as int)),
{
    assert(((a & b) >> t) & 1u64 == 1u64 <==> ((a >> t) & 1u64 == 1u64 && (b >> t) & 1u64 == 1u64))
        by (bit_vector);
}

pub proof fn lemma_bit_not(a: u64, t: u64)
    requires
        t < 64,
    ensures
        bit(!a, t as int) == !bit(a, t as int),
{
    assert(((!a) >> t) & 1u64 == 1u64 <==> !((a >> t) & 1u64 == 1u64)) by (bit_vector)
        requires
            t < 64,
    ;
}

pub proof fn lemma_bit_xor(a: u64, b: u64, t: u64)
    requires
        t < 64,
    ensures
        bit(a ^ b, t as int) == (bit(a, t as int) != bit(b, t as int)),
{
    assert(((a ^ b) >> t) & 1u64 == 1u64 <==> ((a >> t) & 1u64 == 1u64) != ((b >> t) & 1u64
        == 1u64)) by (bit_vector);
}

pub proof fn lemma_bit_zero(t: u64)
    requires
        t < 64,
    ensures
        !bit(0, t as int),
{
    assert((0u64 >> t) & 1u64 != 1u64) by (bit_vector);
}

pub proof fn lemma_bit_shl(a: u64, k: u64, t: u64)
    requires
        k < 64,
        t < 64,
    ensures
        bit(a << k, t as int) == (t >= k && bit(a, t - k)),
{
    if t >= k {
        let d = (t - k) as u64;
        assert(((a << k) >> t) & 1u64 == 1u64 <==> (a >> d) & 1u64 == 1u64) by (bit_vector)
            requires
                k < 64,
                t < 64,
                t >= k,
                d == t - k,
        ;
    } else {
        assert(((a << k) >> t) & 1u64 != 1u64) by (bit_vector)
            requires
                k < 64,
                t < k,
        ;
    }
}

pub proof fn lemma_bit_shr(a: u64, k: u64, t: u64)
    requires
        k < 64,
        t < 64,
    ensures
        bit(a >> k, t as int) == (t + k < 64 && bit(a, t + k)),
{
    if t + k < 64 {
        let d = (t + k) as u64;
        assert(((a >> k) >> t) & 1u64 == 1u64 <==> (a >> d) & 1u64 == 1u64) by (bit_vector)
            requires
                k < 64,
                t < 64,
                d == t + k,
                d < 64,
        ;
    } else {
        assert(((a >> k) >> t) & 1u64 != 1u64) by (bit_vector)
            requires
                k < 64,
                t < 64,
                t + k >= 64,
        ;
    }
}

/// The rearrangements of xor (and or) that keeping a hash in step needs.
pub proof fn lemma_xor_algebra(h: u64, x: u64, y: u64, z: u64, w: u64)
    by (bit_vector)
    ensures
        (h ^ x ^ y ^ z) ^ x == (h ^ 0u64 ^ y) ^ z,
        (h ^ 0u64 ^ y ^ z) ^ x == (h ^ x ^ y) ^ z,
        (h ^ x ^ y ^ z) ^ (z ^ w) == (h ^ x ^ y) ^ w,
        (h ^ x ^ z ^ y) ^ (z ^ w) == (h ^ x ^ w) ^ y,
        ((h ^ w) ^ x ^ y) ^ z == (((h ^ x) ^ y) ^ z) ^ w,
        (h ^ x) ^ x == h,
        (h ^ x) ^ y == (h ^ y) ^ x,
        h ^ y == (h ^ x) ^ (x ^ y),
        h ^ 0u64 == h,
        h ^ x == x ^ h,
        (h ^ x) ^ y == h ^ (x ^ y),
        h | x == x | h,
{
}

/// Clearing a non-empty set of occupied squares makes the bitboard smaller.
pub proof fn lemma_clear_decreases(occ: u64, b: u64)
    requires
        b != 0,
        b & !occ == 0,
    ensures
        occ & !b < occ,
{
    assert(occ & !b < occ) by (bit_vector)
        requires
            b != 0u64,
            b & !occ == 0u64,
    ;
}

/// Two bitboards with the same squares are the same number.
pub proof fn lemma_bits_ext(a: u64, b: u64)
    requires
        forall|t: int| 0 <= t < 64 ==> bit(a, t) == bit(b, t),
    ensures
        a == b,
{
    lemma_bits_ext_from(a, b, 0);
}

proof fn lemma_bits_ext_from(a: u64, b: u64, k: u64)
    requires
        k < 64,
        forall|t: int| 0 <= t < 64 ==> bit(a, t) == bit(b, t),
    ensures
        a >> k == b >> k,
        k == 0 ==> a == b,
    decreases 64 - k,
{
    if k == 63 {
        assert(bit(a, 63) == bit(b, 63));
        assert(((a >> 63u64) & 1u64 == 1u64) == ((b >> 63u64) & 1u64 == 1u64) ==> a >> 63u64 == b
            >> 63u64) by (bit_vector);
    } else {
        lemma_bits_ext_from(a, b, (k + 1) as u64);
        assert(bit(a, k as int) == bit(b, k as int));
        let k1 = (k + 1) as u64;
        assert(a >> k1 == b >> k1 && (((a >> k) & 1u64 == 1u64) == ((b >> k) & 1u64 == 1u64))
            ==> a >> k == b >> k) by (bit_vector)
            requires
                k < 63,
                k1 == k + 1,
        ;
        if k == 0 {
            assert(a >> 0u64 == a && b >> 0u64 == b) by (bit_vector);
        }
    }
}

/// Whether a bitboard is empty, square by square.
pub proof fn lemma_zero_iff_no_bits(a: u64)
    ensures
        a == 0 <==> forall|t: int| 0 <= t < 64 ==> !bit(a, t),
{
    if a == 0 {
        assert forall|t: int| 0 <= t < 64 implies !bit(a, t) by {
            lemma_bit_zero(t as u64);
        }
    } else {
        if forall|t: int| 0 <= t < 64 ==> !bit(a, t) {
            assert forall|t: int| 0 <= t < 64 implies bit(a, t) == bit(0, t) by {
                lemma_bit_zero(t as u64);
            }
            lemma_bits_ext(a, 0);
        }
    }
}

/// The lowest square of a non-empty bitboard.
pub open spec fn lsb(bb: u64) -> int {
    u64_trailing_zeros(bb) as int
}

pub proof fn lemma_lsb(bb: u64)
    requires
        bb != 0,
    ensures
        0 <= lsb(bb) < 64,
        bit(bb, lsb(bb)),
        forall|t: int| 0 <= t < lsb(bb) ==> !bit(bb, t),
        forall|t: int| 0 <= t < 64 ==> bit(bb & ((bb - 1) as u64), t) == (bit(bb, t) && t != lsb(bb)),
{
    axiom_u64_trailing_zeros(bb);
    let k = u64_trailing_zeros(bb) as u64;
    assert forall|t: int| 0 <= t < lsb(bb) implies !bit(bb, t) by {
        let tt = t as u64;
        assert((bb >> tt) & 1u64 == 0u64);
    }
    assert forall|t: int| 0 <= t < 64 implies bit(bb & ((bb - 1) as u64), t) == (bit(bb, t) && t
        != lsb(bb)) by {
        let tt = t as u64;
        assert(((bb & ((bb - 1u64) as u64)) >> tt) & 1u64 == 1u64 <==> ((bb >> tt) & 1u64 == 1u64 && tt
            != k)) by (bit_vector)
            requires
                k < 64,
                tt < 64,
                (bb >> k) & 1u64 == 1u64,
                bb << ((64u64 - k) as u64) == 0u64,
        ;
    }
}

/// Index of the lowest set square.
pub fn lowest_square(bb: u64) -> (sq: usize)
    requires
        bb != 0,
    ensures
        sq == lsb(bb),
        sq < 64,
        bit(bb, sq as int),
        forall|t: int| 0 <= t < sq ==> !bit(bb, t),
{
    proof {
        lemma_lsb(bb);
    }
    bb.trailing_zeros() as usize
}

/// Removes the lowest set square.
pub fn without_lowest(bb: u64) -> (r: u64)
    requires
        bb != 0,
    ensures
        forall|t: int| 0 <= t < 64 ==> bit(r, t) == (bit(bb, t) && t != lsb(bb)),
        r < bb,
        r == bb & ((bb - 1) as u64),
        popcount(bb) == popcount(r) + 1,
{
    proof {
        lemma_lsb(bb);
        assert(bb & ((bb - 1u64) as u64) < bb) by (bit_vector)
            requires
                bb != 0u64,
        ;
    }
    bb & (bb - 1)
}

/// Number of squares in a bitboard.
pub open spec fn popcount(bb: u64) -> nat
    decreases bb,
{
    if bb == 0 {
        0
    } else {
        proof {
            assert(bb & ((bb - 1u64) as u64) < bb) by (bit_vector)
                requires
                    bb != 0u64,
            ;
        }
        1 + popcount(bb & ((bb - 1) as u64))
    }
}

pub proof fn lemma_popcount_decreases(bb: u64)
    requires
        bb != 0,
    ensures
        bb & ((bb - 1) as u64) < bb,
{
    assert(bb & ((bb - 1u64) as u64) < bb) by (bit_vector)
        requires
            bb != 0u64,
    ;
}

/// Sets bit `square` of `bb`.
pub fn set_bit(bb: &mut u64, square: usize)
    requires
        square < 64,
    ensures
        *final(bb) == *old(bb) | (1u64 << square as u64),
        forall|t: int| 0 <= t < 64 ==> bit(*final(bb), t) == (bit(*old(bb), t) || t == square),
{
    proof {
        assert forall|t: int| 0 <= t < 64 implies bit(*old(bb) | (1u64 << square as u64), t) == (
        bit(*old(bb), t) || t == square) by {
            lemma_bit_or(*old(bb), 1u64 << square as u64, t as u64);
            lemma_bit_single(square as u64, t as u64);
        }
    }
    *bb |= 1u64 << square;
}

/// Clears bit `square` of `bb`.
pub fn clear_bit(bb: &mut u64, square: usize)
    requires
        square < 64,
    ensures
        *final(bb) == *old(bb) & !(1u64 << square as u64),
        forall|t: int| 0 <= t < 64 ==> bit(*final(bb), t) == (bit(*old(bb), t) && t != square),
{
    proof {
        assert forall|t: int| 0 <= t < 64 implies bit(*old(bb) & !(1u64 << square as u64), t) == (
        bit(*old(bb), t) && t != square) by {
            lemma_bit_and(*old(bb), !(1u64 << square as u64), t as u64);
            lemma_bit_not(1u64 << square as u64, t as u64);
            lemma_bit_single(square as u64, t as u64);
        }
    }
    *bb &= !(1u64 << square);
}

/// Tests bit `square` of `bb`.
pub fn test_bit(bb: u64, square: usize) -> (r: bool)
    requires
        square < 64,
    ensures
        r == bit(bb, square as int),
{
    (bb >> square as u64) & 1 == 1
}

/// Removes the lowest square of a non-empty bitboard and returns its index.
pub fn pop_bit(bitboard: &mut u64) -> (sq: u64)
    requires
        *old(bitboard) != 0,
    ensures
        sq == lsb(*old(bitboard)),
        sq < 64,
        *final(bitboard) == *old(bitboard) & ((*old(bitboard) - 1) as u64),
        forall|t: int| 0 <= t < 64 ==> bit(*final(bitboard), t) == (bit(*old(bitboard), t) && t != sq),
{
    proof {
        lemma_lsb(*bitboard);
    }
    let sq = bitboard.trailing_zeros() as u64;
    *bitboard = *bitboard & (*bitboard - 1);
    sq
}

/// The number of the squares `0..n` that a bitboard holds.
pub open spec fn squares_below(bb: u64, n: nat) -> nat
    decreases n,
{
    if n == 0 {
        0
    } else {
        squares_below(bb, (n - 1) as nat) + (if bit(bb, n - 1) { 1nat } else { 0nat })
    }
}

/// Two bitboards that differ only in `p`, which the first holds, differ by one in the
/// count of the squares below `n` when `p` is below `n`.
proof fn lemma_squares_below_one_more(a: u64, b: u64, p: int, n: nat)
    requires
        0 <= p < 64,
        n <= 64,
        bit(a, p),
        !bit(b, p),
        forall|t: int| 0 <= t < 64 && t != p ==> bit(a, t) == bit(b, t),
    ensures
        squares_below(a, n) == squares_below(b, n) + (if p < n { 1nat } else { 0nat }),
    decreases n,
{
    if n > 0 {
        lemma_squares_below_one_more(a, b, p, (n - 1) as nat);
    }
}

/// The count kept by `popcount` is the number of squares the bitboard holds.
pub proof fn lemma_popcount_counts_squares(bb: u64)
    ensures
        popcount(bb) == squares_below(bb, 64),
    decreases bb,
{
    if bb == 0 {
        assert forall|n: nat| n <= 64 implies squares_below(bb, n) == 0 by {
            lemma_squares_below_zero(n);
        }
    } else {
        lemma_lsb(bb);
        let rest = bb & ((bb - 1) as u64);
        lemma_popcount_decreases(bb);
        lemma_popcount_counts_squares(rest);
        lemma_squares_below_one_more(bb, rest, lsb(bb), 64);
    }
}

proof fn lemma_squares_below_zero(n: nat)
    requires
        n <= 64,
    ensures
        squares_below(0, n) == 0,
    decreases n,
{
    if n > 0 {
        lemma_bit_zero((n - 1) as u64);
        lemma_squares_below_zero((n - 1) as nat);
    }
}

/// The number of squares in a bitboard.
pub fn count_bits(bit: u64) -> (r: u64)
    ensures
        r == popcount(bit),
        r == squares_below(bit, 64),
        r <= 64,
{
    proof {
        lemma_popcount_counts_squares(bit);
    }
    let mut rest = bit;
    let mut r: u64 = 0;
    while rest != 0
        invariant
            r + popcount(rest) == popcount(bit),
        decreases rest,
    {
        proof {
            lemma_popcount_decreases(rest);
            lemma_popcount_le_64(bit);
        }
        rest = rest & (rest - 1);
        r = r + 1;
    }
    proof {
        lemma_popcount_le_64(bit);
    }
    r
}

/// A bitboard holds at most 64 squares, and no more than lie from its lowest one upwards.
pub proof fn lemma_popcount_le_64(bb: u64)
    ensures
        popcount(bb) <= 64,
        bb != 0 ==> popcount(bb) <= 64 - lsb(bb),
    decreases bb,
{
    if bb != 0 {
        lemma_lsb(bb);
        let rest = bb & ((bb - 1) as u64);
        lemma_popcount_decreases(bb);
        lemma_popcount_le_64(rest);
        assert(popcount(bb) == 1 + popcount(rest));
        if rest != 0 {
            lemma_lsb(rest);
            if lsb(rest) <= lsb(bb) {
                assert(bit(rest, lsb(rest)));
                assert(bit(bb, lsb(rest)));
                assert(false);
            }
            assert(lsb(rest) > lsb(bb));
        } else {
            assert(popcount(rest) == 0);
        }
    }
}

} // verus!
