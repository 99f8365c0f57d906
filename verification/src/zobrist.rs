//! Zobrist keys: a random number for each (piece, square), for the side to move, for
//! each castling-rights set and each en passant square; a position's key is the xor of
//! the numbers of what is on the board.
use vstd::prelude::*;
use crate::defs::{Color, Piece};

verus! {

/// `rand::random::<u64>()`: a number drawn from the thread-local generator. It rests on
/// chance, so nothing is claimed about it.
#[verifier::external_body]
fn random_u64() -> u64 {
    rand::random::<u64>()
}

pub struct ZobristKeys {
    pub piece: Vec<u64>,
    pub side: u64,
    pub castle: Vec<u64>,
    pub en_passant: Vec<u64>,
}

impl ZobristKeys {
    pub open spec fn wf(&self) -> bool {
        &&& self.piece.len() == 32 * 64
        &&& self.castle.len() == 16
        &&& self.en_passant.len() == 64
    }

    /// Draws every key at random.
    pub fn generate() -> (k: Self)
        ensures
            k.wf(),
    {
        let mut piece: Vec<u64> = Vec::with_capacity(2048);
        let mut i: usize = 0;
        while i < 2048
            invariant
                i <= 2048,
                piece.len() == i,
            decreases 2048 - i,
        {
            piece.push(random_u64());
            i += 1;
        }
        let side = random_u64();
        let mut castle: Vec<u64> = Vec::with_capacity(16);
        let mut i: usize = 0;
        while i < 16
            invariant
                i <= 16,
                castle.len() == i,
            decreases 16 - i,
        {
            castle.push(random_u64());
            i += 1;
        }
        let mut en_passant: Vec<u64> = Vec::with_capacity(64);
        let mut i: usize = 0;
        while i < 64
            invariant
                i <= 64,
                en_passant.len() == i,
            decreases 64 - i,
        {
            en_passant.push(random_u64());
            i += 1;
        }
        ZobristKeys { piece, side, castle, en_passant }
    }

    pub fn clone_keys(&self) -> (k: Self)
        ensures
            k.piece@ == self.piece@,
            k.side == self.side,
            k.castle@ == self.castle@,
            k.en_passant@ == self.en_passant@,
    {
        ZobristKeys {
            piece: self.piece.clone(),
            side: self.side,
            castle: self.castle.clone(),
            en_passant: self.en_passant.clone(),
        }
    }
}

/// The seed of the standard keys.
pub const STANDARD_SEED: u64 = 0x9E37_79B9_7F4A_7C15;

/// One step of the xorshift generator the standard keys come from.
pub open spec fn xorshift(x: u64) -> u64 {
    let a = x ^ (x << 13u64);
    let b = a ^ (a >> 7u64);
    b ^ (b << 17u64)
}

/// The `n`-th number of the xorshift sequence from the standard seed.
pub open spec fn standard_number(n: nat) -> u64
    decreases n,
{
    if n == 0 {
        STANDARD_SEED
    } else {
        xorshift(standard_number((n - 1) as nat))
    }
}

/// `k` is the standard key set: numbers 1 to 2048 of the sequence for the pieces on
/// their squares, number 2049 for the side, then 16 for the castling rights and 64 for
/// the en passant squares.
pub open spec fn is_standard(k: ZobristKeys) -> bool {
    &&& k.piece@ == Seq::new(2048, |i: int| standard_number((i + 1) as nat))
    &&& k.side == standard_number(2049)
    &&& k.castle@ == Seq::new(16, |i: int| standard_number((i + 2050) as nat))
    &&& k.en_passant@ == Seq::new(64, |i: int| standard_number((i + 2066) as nat))
}

fn xorshift_step(x: u64) -> (r: u64)
    ensures
        r == xorshift(x),
{
    let a = x ^ (x << 13u64);
    let b = a ^ (a >> 7u64);
    b ^ (b << 17u64)
}

impl ZobristKeys {
    /// The standard key set, the same on every call: every board made by `Board::new`
    /// carries it, so a position has one key however it was reached.
    pub fn standard() -> (k: Self)
        ensures
            k.wf(),
            is_standard(k),
    {
        let mut state = STANDARD_SEED;
        let ghost mut n: nat = 0;
        let mut piece: Vec<u64> = Vec::with_capacity(2048);
        while piece.len() < 2048
            invariant
                piece.len() <= 2048,
                n == piece.len(),
                state == standard_number(n),
                forall|i: int| 0 <= i < piece.len() ==> #[trigger] piece@[i] == standard_number((i + 1) as nat),
            decreases 2048 - piece.len(),
        {
            state = xorshift_step(state);
            piece.push(state);
            proof {
                n = n + 1;
            }
        }
        state = xorshift_step(state);
        let side = state;
        proof {
            n = n + 1;
        }
        let mut castle: Vec<u64> = Vec::with_capacity(16);
        while castle.len() < 16
            invariant
                castle.len() <= 16,
                n == castle.len() + 2049,
                state == standard_number(n),
                forall|i: int| 0 <= i < castle.len() ==> #[trigger] castle@[i] == standard_number((i + 2050) as nat),
            decreases 16 - castle.len(),
        {
            state = xorshift_step(state);
            castle.push(state);
            proof {
                n = n + 1;
            }
        }
        let mut en_passant: Vec<u64> = Vec::with_capacity(64);
        while en_passant.len() < 64
            invariant
                en_passant.len() <= 64,
                n == en_passant.len() + 2065,
                state == standard_number(n),
                forall|i: int| 0 <= i < en_passant.len() ==> #[trigger] en_passant@[i] == standard_number((i + 2066) as nat),
            decreases 64 - en_passant.len(),
        {
            state = xorshift_step(state);
            en_passant.push(state);
            proof {
                n = n + 1;
            }
        }
        let k = ZobristKeys { piece, side, castle, en_passant };
        proof {
            assert(k.piece@ =~= Seq::new(2048, |i: int| standard_number((i + 1) as nat)));
            assert(k.castle@ =~= Seq::new(16, |i: int| standard_number((i + 2050) as nat)));
            assert(k.en_passant@ =~= Seq::new(64, |i: int| standard_number((i + 2066) as nat)));
        }
        k
    }
}

/// The side to move enters the key by the side number alone: white's key is black's
/// with the side number xor'd in.
pub proof fn lemma_side_key(k: ZobristKeys, ps: Seq<Piece>, ep: Option<u8>, castle: u8)
    ensures
        position_key_of(k, ps, Color::WHITE, ep, castle) == position_key_of(k, ps, Color::BLACK, ep, castle) ^ k.side,
{
    let h = pieces_hash(k, ps, 64);
    let e = ep_term(k, ep);
    let c = castle_term(k, castle);
    let s = k.side;
    assert((h ^ s ^ e ^ c) == (h ^ 0u64 ^ e ^ c) ^ s) by (bit_vector);
}

/// The key of one square's content (0 for an empty square).
pub open spec fn piece_term(keys: ZobristKeys, p: Piece, sq: int) -> u64 {
    if p == Piece::NONE {
        0
    } else {
        keys.piece@[p.idx() * 64 + sq]
    }
}

/// The xor of the keys of the first `n` squares.
pub open spec fn pieces_hash(keys: ZobristKeys, ps: Seq<Piece>, n: int) -> u64
    decreases n,
{
    if n <= 0 {
        0
    } else {
        pieces_hash(keys, ps, n - 1) ^ piece_term(keys, ps[n - 1], n - 1)
    }
}

pub open spec fn side_term(keys: ZobristKeys, side: Color) -> u64 {
    if side == Color::WHITE {
        keys.side
    } else {
        0
    }
}

pub open spec fn ep_term(keys: ZobristKeys, ep: Option<u8>) -> u64 {
    match ep {
        Some(s) => keys.en_passant@[s as int],
        None => 0,
    }
}

pub open spec fn castle_term(keys: ZobristKeys, castle: u8) -> u64 {
    keys.castle@[castle as int]
}

/// The key of a position.
pub open spec fn position_key_of(
    keys: ZobristKeys,
    ps: Seq<Piece>,
    side: Color,
    ep: Option<u8>,
    castle: u8,
) -> u64 {
    pieces_hash(keys, ps, 64) ^ side_term(keys, side) ^ ep_term(keys, ep) ^ castle_term(keys, castle)
}

/// The hash of the first `n` squares depends on the keys' numbers alone.
proof fn lemma_pieces_hash_same_keys(k1: ZobristKeys, k2: ZobristKeys, ps: Seq<Piece>, n: int)
    requires
        k1.piece@ == k2.piece@,
    ensures
        pieces_hash(k1, ps, n) == pieces_hash(k2, ps, n),
    decreases n,
{
    if n > 0 {
        lemma_pieces_hash_same_keys(k1, k2, ps, n - 1);
    }
}

/// Two sets of keys with the same numbers give every position the same key.
pub proof fn lemma_key_of_same_keys(k1: ZobristKeys, k2: ZobristKeys, ps: Seq<Piece>, side: Color, ep: Option<u8>, castle: u8)
    requires
        k1.piece@ == k2.piece@,
        k1.side == k2.side,
        k1.castle@ == k2.castle@,
        k1.en_passant@ == k2.en_passant@,
    ensures
        position_key_of(k1, ps, side, ep, castle) == position_key_of(k2, ps, side, ep, castle),
{
    lemma_pieces_hash_same_keys(k1, k2, ps, 64);
}

pub proof fn lemma_xor_swap(a: u64, b: u64, c: u64)
    ensures
        (a ^ b) ^ c == (a ^ c) ^ b,
        a ^ c == (a ^ b) ^ (b ^ c),
        (a ^ b) ^ b == a,
        a ^ 0 == a,
        a ^ b == b ^ a,
        (a ^ b) ^ c == a ^ (b ^ c),
{
    crate::bits::lemma_xor_algebra(a, b, c, 0, 0);
}

/// Changing one square's content changes the hash by the xor of the two square keys.
pub proof fn lemma_pieces_hash_update(keys: ZobristKeys, ps: Seq<Piece>, s: int, q: Piece, n: int)
    requires
        0 <= s < ps.len(),
        n <= ps.len(),
    ensures
        pieces_hash(keys, ps.update(s, q), n) == pieces_hash(keys, ps, n) ^ (if s < n {
            piece_term(keys, ps[s], s) ^ piece_term(keys, q, s)
        } else {
            0
        }),
    decreases n,
{
    let ps2 = ps.update(s, q);
    if n <= 0 {
        lemma_xor_swap(0, 0, 0);
    } else {
        lemma_pieces_hash_update(keys, ps, s, q, n - 1);
        let h = pieces_hash(keys, ps, n - 1);
        let t = piece_term(keys, ps[n - 1], n - 1);
        let a = piece_term(keys, ps[s], s);
        let b = piece_term(keys, q, s);
        if s == n - 1 {
            lemma_xor_swap(h, 0, 0);
            lemma_xor_swap(h, a, b);
        } else if s < n - 1 {
            lemma_xor_swap(h, a ^ b, t);
        } else {
            lemma_xor_swap(h, 0, 0);
            lemma_xor_swap(h ^ t, 0, 0);
        }
    }
}

} // verus!
