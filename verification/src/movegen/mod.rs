//! Moves packed into 32 bits, scored moves, and the list the generator fills.
pub mod attacks;
pub mod generate;
pub mod mvv_lva;

use vstd::prelude::*;
use vstd::std_specs::iter::IteratorSpec;

verus! {

pub const MOVE_FLAG_NONE: usize = 0;
pub const MOVE_FLAG_EN_PASSANT: usize = 1;
pub const MOVE_FLAG_PAWN_START: usize = 2;
pub const MOVE_FLAG_CASTLE: usize = 4;

/// The packing of a move: bits 0..6 the origin, 6..12 the target, 12..17 the captured
/// piece, 17..20 the flags (en passant, double push, castle), 20..25 the promoted piece.
pub open spec fn encode_move(from: u32, to: u32, capture: u32, flags: u32, promote: u32) -> u32 {
    from | (to << 6u32) | (capture << 12u32) | (flags << 17u32) | (promote << 20u32)
}

#[derive(Copy, Clone, PartialEq, Eq, Structural, Debug)]
pub struct Move(pub u32);

impl Move {
    pub open spec fn from_sq(self) -> nat {
        (self.0 & 0x3Fu32) as nat
    }

    pub open spec fn to_sq(self) -> nat {
        ((self.0 >> 6u32) & 0x3Fu32) as nat
    }

    pub open spec fn captured_idx(self) -> nat {
        ((self.0 >> 12u32) & 0x1Fu32) as nat
    }

    pub open spec fn promoted_idx(self) -> nat {
        ((self.0 >> 20u32) & 0x1Fu32) as nat
    }

    pub open spec fn en_passant_flag(self) -> bool {
        (self.0 & (1u32 << 17u32)) != 0
    }

    pub open spec fn double_push_flag(self) -> bool {
        (self.0 & (1u32 << 18u32)) != 0
    }

    pub open spec fn castle_flag(self) -> bool {
        (self.0 & (1u32 << 19u32)) != 0
    }

    /// Packs a move. Fields that fit their widths come back unchanged from the getters.
    pub fn new(from: usize, to: usize, capture: usize, flags: usize, promote: usize) -> (mv: Self)
        ensures
            mv.0 == encode_move(from as u32, to as u32, capture as u32, flags as u32, promote as u32),
            from < 64 && to < 64 && capture < 32 && flags < 8 && promote < 32 ==> {
                &&& mv.from_sq() == from
                &&& mv.to_sq() == to
                &&& mv.captured_idx() == capture
                &&& mv.promoted_idx() == promote
                &&& mv.en_passant_flag() == (flags % 2 == 1)
                &&& mv.double_push_flag() == ((flags / 2) % 2 == 1)
                &&& mv.castle_flag() == (flags / 4 == 1)
            },
    {
        let m = Self(
            from as u32 | ((to as u32) << 6) | ((capture as u32) << 12) | ((flags as u32) << 17)
                | ((promote as u32) << 20),
        );
        proof {
            if from < 64 && to < 64 && capture < 32 && flags < 8 && promote < 32 {
                lemma_move_fields(from as u32, to as u32, capture as u32, flags as u32, promote as u32);
            }
        }
        m
    }

    pub fn from_square(&self) -> (r: usize)
        ensures
            r == self.from_sq(),
            r < 64,
    {
        proof {
            lemma_move_squares(*self);
        }
        (self.0 & 0x3F) as usize
    }

    pub fn to_square(&self) -> (r: usize)
        ensures
            r == self.to_sq(),
            r < 64,
    {
        proof {
            lemma_move_squares(*self);
        }
        (self.0 >> 6 & 0x3F) as usize
    }

    pub fn captured(&self) -> (r: usize)
        ensures
            r == self.captured_idx(),
            r < 32,
    {
        proof {
            lemma_move_squares(*self);
        }
        (self.0 >> 12 & 0x1F) as usize
    }

    pub fn promoted(&self) -> (r: usize)
        ensures
            r == self.promoted_idx(),
            r < 32,
    {
        proof {
            lemma_move_squares(*self);
        }
        (self.0 >> 20 & 0x1F) as usize
    }

    pub fn is_en_passant(&self) -> (r: bool)
        ensures
            r == self.en_passant_flag(),
    {
        (self.0 & (1 << 17)) != 0
    }

    pub fn is_double_push(&self) -> (r: bool)
        ensures
            r == self.double_push_flag(),
    {
        (self.0 & (1 << 18)) != 0
    }

    pub fn is_castling(&self) -> (r: bool)
        ensures
            r == self.castle_flag(),
    {
        (self.0 & (1 << 19)) != 0
    }
}

impl Default for Move {
    fn default() -> (m: Self)
        ensures
            m.0 == 0,
    {
        Self(0)
    }
}

/// The getters read back the fields that `Move::new` packed, when each fits its width.
pub proof fn lemma_move_fields(from: u32, to: u32, capture: u32, flags: u32, promote: u32)
    requires
        from < 64,
        to < 64,
        capture < 32,
        flags < 8,
        promote < 32,
    ensures
        ({
            let mv = Move(encode_move(from, to, capture, flags, promote));
            &&& mv.from_sq() == from
            &&& mv.to_sq() == to
            &&& mv.captured_idx() == capture
            &&& mv.promoted_idx() == promote
            &&& mv.en_passant_flag() == (flags % 2 == 1)
            &&& mv.double_push_flag() == ((flags / 2) % 2 == 1)
            &&& mv.castle_flag() == (flags / 4 == 1)
        }),
{
    let m = encode_move(from, to, capture, flags, promote);
    assert(m & 0x3Fu32 == from && (m >> 6u32) & 0x3Fu32 == to && (m >> 12u32) & 0x1Fu32 == capture
        && (m >> 20u32) & 0x1Fu32 == promote && ((m & (1u32 << 17u32)) != 0) == (flags % 2 == 1)
        && ((m & (1u32 << 18u32)) != 0) == ((flags / 2) % 2 == 1) && ((m & (1u32 << 19u32)) != 0) == (
    flags / 4 == 1)) by (bit_vector)
        requires
            m == from | (to << 6u32) | (capture << 12u32) | (flags << 17u32) | (promote << 20u32),
            from < 64,
            to < 64,
            capture < 32,
            flags < 8,
            promote < 32,
    ;
}

/// The fields a move packs lie within their widths.
pub proof fn lemma_move_squares(mv: Move)
    ensures
        mv.from_sq() < 64,
        mv.to_sq() < 64,
        mv.captured_idx() < 32,
        mv.promoted_idx() < 32,
{
    let x = mv.0;
    assert(x & 0x3Fu32 < 64 && (x >> 6u32) & 0x3Fu32 < 64 && (x >> 12u32) & 0x1Fu32 < 32 && (x >> 20u32) & 0x1Fu32 < 32) by (bit_vector);
}

/// Exchanging two elements keeps the multiset of a sequence.
pub proof fn lemma_swap_multiset<A>(s: Seq<A>, i: int, j: int)
    requires
        0 <= i < s.len(),
        0 <= j < s.len(),
        i != j,
    ensures
        s.update(i, s[j]).update(j, s[i]).to_multiset() == s.to_multiset(),
{
    broadcast use vstd::seq_lib::group_to_multiset_ensures;
    broadcast use vstd::multiset::group_multiset_properties;
    broadcast use vstd::multiset::group_multiset_axioms;

    let s1 = s.update(i, s[j]);
    assert(s1.to_multiset() == s.to_multiset().insert(s[j]).remove(s[i]));
    assert(s1[j] == s[j]);
    let s2 = s1.update(j, s[i]);
    assert(s2.to_multiset() == s1.to_multiset().insert(s[i]).remove(s[j]));
    assert(s2.to_multiset() =~= s.to_multiset());
}

#[derive(Copy, Clone, Debug)]
pub struct ScoredMove {
    pub mv: Move,
    pub score: i16,
}

impl ScoredMove {
    pub fn new(mv: Move, score: i16) -> (s: Self)
        ensures
            s.mv == mv,
            s.score == score,
    {
        Self { mv, score }
    }

    pub fn default() -> (s: Self)
        ensures
            s.mv.0 == 0,
            s.score == 0,
    {
        Self { mv: Move(0), score: 0 }
    }
}

/// The moves found in a position, in the order the generator found them (or sorted).
pub struct MoveList {
    pub moves: Vec<ScoredMove>,
    pub count: usize,
}

impl MoveList {
    pub open spec fn wf(&self) -> bool {
        self.moves.len() == self.count
    }

    pub fn new() -> (l: Self)
        ensures
            l.wf(),
            l.count == 0,
    {
        Self { moves: Vec::with_capacity(256), count: 0 }
    }

    pub fn add(&mut self, mv: ScoredMove)
        requires
            old(self).wf(),
        ensures
            final(self).wf(),
            final(self).moves@ == old(self).moves@.push(mv),
    {
        self.moves.push(mv);
        self.count = self.moves.len();
    }

    /// Empties the list.
    pub fn clear(&mut self)
        ensures
            final(self).wf(),
            final(self).count == 0,
    {
        self.moves.clear();
        self.count = 0;
    }

    pub fn len(&self) -> (r: usize)
        ensures
            r == self.count,
    {
        self.count
    }

    /// Walks the moves in list order.
    pub fn iter(&self) -> (it: std::slice::Iter<'_, ScoredMove>)
        requires
            self.wf(),
        ensures
            it.remaining() == self.moves@.as_ref(),
    {
        proof {
            broadcast use vstd::std_specs::slice::axiom_spec_slice_iter;
        }
        self.moves.as_slice().iter()
    }

    /// Sorts the moves by score, highest first.
    pub fn sort(&mut self)
        requires
            old(self).wf(),
        ensures
            final(self).wf(),
            final(self).moves@.to_multiset() == old(self).moves@.to_multiset(),
            forall|i: int, j: int|
                0 <= i < j < final(self).moves@.len() ==> final(self).moves@[i].score
                    >= final(self).moves@[j].score,
            crate::movegen::generate::distinct_moves(old(self).moves@) ==> crate::movegen::generate::distinct_moves(final(self).moves@),
    {
        let n = self.moves.len();
        let mut i: usize = 1;
        proof {
            broadcast use vstd::seq_lib::group_to_multiset_ensures;
        }
        while i < n
            invariant
                n == self.moves.len(),
                self.count == n,
                1 <= i <= n || n == 0,
                self.moves@.to_multiset() == old(self).moves@.to_multiset(),
                forall|a: int, b: int|
                    0 <= a < b < i && b < n ==> self.moves@[a].score >= self.moves@[b].score,
                crate::movegen::generate::distinct_moves(old(self).moves@) ==> crate::movegen::generate::distinct_moves(self.moves@),
            decreases n - i,
        {
            let mut j: usize = i;
            while j > 0 && self.moves[j - 1].score < self.moves[j].score
                invariant
                    n == self.moves.len(),
                    self.count == n,
                    0 <= j <= i < n,
                    self.moves@.to_multiset() == old(self).moves@.to_multiset(),
                    forall|a: int, b: int|
                        0 <= a < b <= i && a != j && b != j ==> self.moves@[a].score
                            >= self.moves@[b].score,
                    forall|b: int| j < b <= i ==> self.moves@[j as int].score > self.moves@[b].score
                        || (j == i),
                    j < i ==> forall|a: int| 0 <= a < j ==> #[trigger] self.moves@[a].score
                        >= self.moves@[j + 1].score,
                    crate::movegen::generate::distinct_moves(old(self).moves@) ==> crate::movegen::generate::distinct_moves(self.moves@),
                decreases j,
            {
                let a = self.moves[j - 1];
                let b = self.moves[j];
                let ghost before = self.moves@;
                self.moves.set(j - 1, b);
                self.moves.set(j, a);
                proof {
                    assert(self.moves@ =~= before.update(j - 1, b).update(j as int, a));
                    lemma_swap_multiset(before, j - 1, j as int);
                    if crate::movegen::generate::distinct_moves(old(self).moves@) {
                        assert forall|x: int, y: int| 0 <= x < y < self.moves@.len() implies
                            #[trigger] self.moves@[x].mv != #[trigger] self.moves@[y].mv by {
                            let px = if x == j - 1 { j as int } else if x == j { j - 1 } else { x };
                            let py = if y == j - 1 { j as int } else if y == j { j - 1 } else { y };
                            assert(self.moves@[x] == before[px]);
                            assert(self.moves@[y] == before[py]);
                            if px < py {
                                assert(before[px].mv != before[py].mv);
                            } else {
                                assert(before[py].mv != before[px].mv);
                            }
                        }
                    }
                }
                j -= 1;
            }
            i += 1;
        }
    }
}

/// Move notation: origin and target squares, then the promotion letter if any.
pub open spec fn move_bytes(mv: Move) -> Seq<u8> {
    crate::text::square_bytes(mv.from_sq() as int) + crate::text::square_bytes(mv.to_sq() as int)
        + crate::text::promo_bytes(mv.promoted_idx())
}

impl Move {
    /// The move in coordinate notation, as in "e2e4" or "e7e8q".
    pub fn to_string(&self) -> (s: String)
        ensures
            s@ == crate::text::ascii_chars(move_bytes(*self)),
    {
        proof {
            lemma_move_squares(*self);
        }
        let mut out: Vec<u8> = Vec::new();
        crate::text::push_square(&mut out, self.from_square());
        crate::text::push_square(&mut out, self.to_square());
        crate::text::push_promo_char(&mut out, self.promoted());
        proof {
            assert(out@ =~= move_bytes(*self));
            assert(crate::text::all_ascii(out@)) by {
                assert forall|i: int| 0 <= i < out@.len() implies #[trigger] out@[i] < 128 by {
                }
            }
        }
        crate::text::ascii_string(out)
    }
}

} // verus!
