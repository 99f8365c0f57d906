//! The transposition table: search results keyed by position, in a fixed number of slots.
//!
//! An entry's data packs, from bit 0 up: the best move (32 bits), the depth (6 bits),
//! the age of the search that wrote it (8 bits), the bound flag (2 bits) and the score
//! (16 bits, two's complement).
use vstd::prelude::*;
use crate::movegen::Move;

verus! {

pub const ALPHA_FLAG: u8 = 1;
pub const BETA_FLAG: u8 = 2;
pub const EXACT_FLAG: u8 = 3;

pub open spec fn data_move(d: u64) -> u32 {
    (d & 0xFFFF_FFFFu64) as u32
}

pub open spec fn data_depth(d: u64) -> u8 {
    ((d >> 32u64) & 0x3Fu64) as u8
}

pub open spec fn data_age(d: u64) -> u8 {
    ((d >> 38u64) & 0xFFu64) as u8
}

pub open spec fn data_flag(d: u64) -> u8 {
    ((d >> 46u64) & 0x03u64) as u8
}

pub open spec fn data_score(d: u64) -> i16 {
    (d >> 48u64) as i16
}

#[derive(Copy, Clone, PartialEq, Eq, Structural, Debug)]
pub struct TranspositionData(pub u64);

impl TranspositionData {
    /// Packs move, depth, age, flag and score.
    pub fn new(mv: Move, depth: u8, age: u8, flag: u8, score: i16) -> (data: Self)
        ensures
            data_move(data.0) == mv.0,
            data_depth(data.0) == depth & 0x3F,
            data_age(data.0) == age,
            data_flag(data.0) == flag & 0x03,
            data_score(data.0) == score,
    {
        let mut data = TranspositionData(0);
        data.set_move(mv);
        data.set_depth(depth);
        data.set_age(age);
        data.set_flag(flag);
        data.set_score(score);
        data
    }

    pub fn get_move(&self) -> (mv: Move)
        ensures
            mv.0 == data_move(self.0),
    {
        Move((self.0 & 0xFFFF_FFFF) as u32)
    }

    pub fn set_move(&mut self, mv: Move)
        ensures
            data_move(final(self).0) == mv.0,
            data_depth(final(self).0) == data_depth(old(self).0),
            data_age(final(self).0) == data_age(old(self).0),
            data_flag(final(self).0) == data_flag(old(self).0),
            data_score(final(self).0) == data_score(old(self).0),
    {
        let d = self.0;
        let m = mv.0;
        let r = (d & !0xFFFF_FFFFu64) | (m as u64);
        proof {
            assert((r & 0xFFFF_FFFFu64) as u32 == m && ((r >> 32u64) & 0x3Fu64) == ((d >> 32u64)
                & 0x3Fu64) && ((r >> 38u64) & 0xFFu64) == ((d >> 38u64) & 0xFFu64) && ((r
                >> 46u64) & 0x03u64) == ((d >> 46u64) & 0x03u64) && (r >> 48u64) == (d >> 48u64))
                by (bit_vector)
                requires
                    r == (d & !0xFFFF_FFFFu64) | (m as u64),
            ;
        }
        self.0 = r;
    }

    pub fn get_depth(&self) -> (r: u8)
        ensures
            r == data_depth(self.0),
            r < 64,
    {
        proof {
            let d = self.0;
            assert(((d >> 32u64) & 0x3Fu64) < 64) by (bit_vector);
        }
        ((self.0 >> 32) & 0x3F) as u8
    }

    pub fn set_depth(&mut self, depth: u8)
        ensures
            data_depth(final(self).0) == depth & 0x3F,
            data_move(final(self).0) == data_move(old(self).0),
            data_age(final(self).0) == data_age(old(self).0),
            data_flag(final(self).0) == data_flag(old(self).0),
            data_score(final(self).0) == data_score(old(self).0),
    {
        let d = self.0;
        let dd = (depth as u64) & 0x3F;
        let r = (d & !(0x3Fu64 << 32)) | (dd << 32);
        proof {
            assert(((r >> 32u64) & 0x3Fu64) as u8 == depth & 0x3Fu8 && (r & 0xFFFF_FFFFu64) == (d
                & 0xFFFF_FFFFu64) && ((r >> 38u64) & 0xFFu64) == ((d >> 38u64) & 0xFFu64) && ((r
                >> 46u64) & 0x03u64) == ((d >> 46u64) & 0x03u64) && (r >> 48u64) == (d >> 48u64))
                by (bit_vector)
                requires
                    dd == (depth as u64) & 0x3Fu64,
                    r == (d & !(0x3Fu64 << 32u64)) | (dd << 32u64),
            ;
        }
        self.0 = r;
    }

    pub fn get_age(&self) -> (r: u8)
        ensures
            r == data_age(self.0),
    {
        ((self.0 >> 38) & 0xFF) as u8
    }

    pub fn set_age(&mut self, age: u8)
        ensures
            data_age(final(self).0) == age,
            data_move(final(self).0) == data_move(old(self).0),
            data_depth(final(self).0) == data_depth(old(self).0),
            data_flag(final(self).0) == data_flag(old(self).0),
            data_score(final(self).0) == data_score(old(self).0),
    {
        let d = self.0;
        let a = (age as u64) & 0xFF;
        let r = (d & !(0xFFu64 << 38)) | (a << 38);
        proof {
            assert(((r >> 38u64) & 0xFFu64) as u8 == age && (r & 0xFFFF_FFFFu64) == (d
                & 0xFFFF_FFFFu64) && ((r >> 32u64) & 0x3Fu64) == ((d >> 32u64) & 0x3Fu64) && ((r
                >> 46u64) & 0x03u64) == ((d >> 46u64) & 0x03u64) && (r >> 48u64) == (d >> 48u64))
                by (bit_vector)
                requires
                    a == (age as u64) & 0xFFu64,
                    r == (d & !(0xFFu64 << 38u64)) | (a << 38u64),
            ;
        }
        self.0 = r;
    }

    pub fn get_flag(&self) -> (r: u8)
        ensures
            r == data_flag(self.0),
            r < 4,
    {
        proof {
            let d = self.0;
            assert(((d >> 46u64) & 0x03u64) < 4) by (bit_vector);
        }
        ((self.0 >> 46) & 0x03) as u8
    }

    pub fn set_flag(&mut self, flag: u8)
        ensures
            data_flag(final(self).0) == flag & 0x03,
            data_move(final(self).0) == data_move(old(self).0),
            data_depth(final(self).0) == data_depth(old(self).0),
            data_age(final(self).0) == data_age(old(self).0),
            data_score(final(self).0) == data_score(old(self).0),
    {
        let d = self.0;
        let f = (flag as u64) & 0x03;
        let r = (d & !(0x03u64 << 46)) | (f << 46);
        proof {
            assert(((r >> 46u64) & 0x03u64) as u8 == flag & 0x03u8 && (r & 0xFFFF_FFFFu64) == (d
                & 0xFFFF_FFFFu64) && ((r >> 32u64) & 0x3Fu64) == ((d >> 32u64) & 0x3Fu64) && ((r
                >> 38u64) & 0xFFu64) == ((d >> 38u64) & 0xFFu64) && (r >> 48u64) == (d >> 48u64))
                by (bit_vector)
                requires
                    f == (flag as u64) & 0x03u64,
                    r == (d & !(0x03u64 << 46u64)) | (f << 46u64),
            ;
        }
        self.0 = r;
    }

    pub fn get_score(&self) -> (r: i16)
        ensures
            r == data_score(self.0),
    {
        (self.0 >> 48) as i16
    }

    pub fn set_score(&mut self, score: i16)
        ensures
            data_score(final(self).0) == score,
            data_move(final(self).0) == data_move(old(self).0),
            data_depth(final(self).0) == data_depth(old(self).0),
            data_age(final(self).0) == data_age(old(self).0),
            data_flag(final(self).0) == data_flag(old(self).0),
    {
        let d = self.0;
        let s = (score as u16 as u64) & 0xFFFF;
        let r = (d & !(0xFFFFu64 << 48)) | (s << 48);
        proof {
            assert((r >> 48u64) as i16 == score && (r & 0xFFFF_FFFFu64) == (d & 0xFFFF_FFFFu64)
                && ((r >> 32u64) & 0x3Fu64) == ((d >> 32u64) & 0x3Fu64) && ((r >> 38u64) & 0xFFu64)
                == ((d >> 38u64) & 0xFFu64) && ((r >> 46u64) & 0x03u64) == ((d >> 46u64)
                & 0x03u64)) by (bit_vector)
                requires
                    s == (score as u16 as u64) & 0xFFFFu64,
                    r == (d & !(0xFFFFu64 << 48u64)) | (s << 48u64),
            ;
        }
        self.0 = r;
    }
}

/// One slot: the key xor'd with the data (so that a torn or foreign entry does not
/// match), and the data.
#[derive(Copy, Clone, Debug)]
pub struct TranspositionEntry {
    pub encoded_key: u64,
    pub data: u64,
}

pub struct TranspositionTable {
    entries: Vec<TranspositionEntry>,
    mask: usize,
}

/// The slot a key goes to.
pub open spec fn slot_of(key: u64, mask: usize) -> int {
    ((key as usize) & mask) as int
}

/// The data held for `key` in a slot, if the slot holds that key.
pub open spec fn entry_lookup(e: TranspositionEntry, key: u64) -> Option<TranspositionData> {
    if e.encoded_key ^ e.data == key {
        Some(TranspositionData(e.data))
    } else {
        None
    }
}

/// Whether `data` for `key` displaces what a slot holds: always for the same position
/// when it is at least as deep; for another position when the slot was written by a
/// search of another age, or else when it is at least as deep.
pub open spec fn replaces(e: TranspositionEntry, key: u64, data: TranspositionData) -> bool {
    if e.encoded_key ^ e.data == key {
        data_depth(data.0) >= data_depth(e.data)
    } else if data_age(e.data) != data_age(data.0) {
        true
    } else {
        data_depth(data.0) >= data_depth(e.data)
    }
}

impl TranspositionTable {
    pub closed spec fn wf(&self) -> bool {
        &&& self.entries.len() > 0
        &&& self.mask == self.entries.len() - 1
        &&& forall|k: u64| 0 <= #[trigger] slot_of(k, self.mask) < self.entries.len()
    }

    pub closed spec fn slots(&self) -> Seq<TranspositionEntry> {
        self.entries@
    }

    pub closed spec fn spec_mask(&self) -> usize {
        self.mask
    }

    /// What `probe(key)` answers: the data of the key's slot, if that slot holds the key.
    pub open spec fn lookup(&self, key: u64) -> Option<TranspositionData> {
        entry_lookup(self.slots()[slot_of(key, self.spec_mask())], key)
    }

    /// A table of `2^length_by_pow2` empty slots. An empty slot reads as the position
    /// whose key is 0, with all-zero data; no other key finds anything.
    pub fn new(length_by_pow2: usize) -> (t: Self)
        requires
            length_by_pow2 < usize::BITS,
        ensures
            t.wf(),
            t.slots().len() == vstd::arithmetic::power2::pow2(length_by_pow2 as nat),
            t.spec_mask() == t.slots().len() - 1,
            forall|i: int| 0 <= i < t.slots().len() ==> #[trigger] t.slots()[i].encoded_key == 0 && t.slots()[i].data == 0,
            forall|k: u64| k != 0 ==> #[trigger] t.lookup(k) is None,
    {
        let size: usize = 1usize << length_by_pow2;
        proof {
            vstd::bits::lemma_usize_pow2_no_overflow(length_by_pow2 as nat);
            vstd::bits::lemma_usize_shl_is_mul(1, length_by_pow2);
            vstd::arithmetic::power2::lemma_pow2_pos(length_by_pow2 as nat);
        }
        let mut entries: Vec<TranspositionEntry> = Vec::with_capacity(size);
        let mut i: usize = 0;
        while i < size
            invariant
                i <= size,
                entries.len() == i,
                forall|j: int| 0 <= j < i ==> #[trigger] entries@[j].encoded_key == 0 && entries@[j].data == 0,
            decreases size - i,
        {
            entries.push(TranspositionEntry { encoded_key: 0, data: 0 });
            i += 1;
        }
        let mask = size - 1;
        proof {
            assert forall|k: u64| 0 <= #[trigger] slot_of(k, mask) < size by {
                let kk = #[verifier::truncate] (k as usize);
                assert(kk & mask <= mask) by (bit_vector);
            }
        }
        let t = Self { entries, mask };
        proof {
            assert forall|k: u64| k != 0 implies #[trigger] t.lookup(k) is None by {
                assert(0 <= slot_of(k, mask) < size);
                assert(0u64 ^ 0u64 == 0u64) by (bit_vector);
            }
        }
        t
    }

    /// The shape of a well-formed table: at least one slot, a mask one less than the
    /// number of slots, and every key's slot among them.
    pub proof fn lemma_shape(&self)
        requires
            self.wf(),
        ensures
            self.slots().len() > 0,
            self.spec_mask() == self.slots().len() - 1,
            forall|k: u64| 0 <= #[trigger] slot_of(k, self.spec_mask()) < self.slots().len(),
    {
    }

    pub fn index(&self, position_key: u64) -> (i: usize)
        requires
            self.wf(),
        ensures
            i == slot_of(position_key, self.spec_mask()),
            i < self.slots().len(),
    {
        proof {
            assert(0 <= slot_of(position_key, self.mask) < self.entries.len());
        }
        position_key as usize & self.mask
    }

    /// The data stored for `position_key`, if its slot holds that position.
    pub fn probe(&self, position_key: u64) -> (r: Option<TranspositionData>)
        requires
            self.wf(),
        ensures
            r == self.lookup(position_key),
    {
        let entry = self.entries[self.index(position_key)];
        let checksum = entry.encoded_key;
        let data = entry.data;
        if (checksum ^ data) == position_key {
            Some(TranspositionData(data))
        } else {
            None
        }
    }

    /// Writes `data` for `position_key` into its slot when the replacement policy allows.
    pub fn store(&mut self, position_key: u64, data: TranspositionData)
        requires
            old(self).wf(),
        ensures
            final(self).wf(),
            final(self).spec_mask() == old(self).spec_mask(),
            ({
                let i = slot_of(position_key, old(self).spec_mask());
                let e = old(self).slots()[i];
                if replaces(e, position_key, data) {
                    final(self).slots() == old(self).slots().update(
                        i,
                        TranspositionEntry { encoded_key: position_key ^ data.0, data: data.0 },
                    )
                } else {
                    final(self).slots() == old(self).slots()
                }
            }),
    {
        let index = self.index(position_key);
        let entry = self.entries[index];
        let old_checksum = entry.encoded_key;
        let old_data_raw = entry.data;
        let old_data = TranspositionData(old_data_raw);

        let is_same_pos = (old_checksum ^ old_data_raw) == position_key;
        let replace = if is_same_pos {
            data.get_depth() >= old_data.get_depth()
        } else {
            if old_data.get_age() != data.get_age() {
                true
            } else {
                data.get_depth() >= old_data.get_depth()
            }
        };

        if replace {
            let checksum = position_key ^ data.0;
            self.entries.set(index, TranspositionEntry { encoded_key: checksum, data: data.0 });
        }
    }
}

/// Reading back: once `store` has written an entry, `probe` of the same key returns it.
pub proof fn lemma_probe_after_store(
    before: TranspositionTable,
    after: TranspositionTable,
    key: u64,
    data: TranspositionData,
)
    requires
        before.wf(),
        after.wf(),
        after.spec_mask() == before.spec_mask(),
        after.slots() == before.slots().update(
            slot_of(key, before.spec_mask()),
            TranspositionEntry { encoded_key: key ^ data.0, data: data.0 },
        ),
    ensures
        after.lookup(key) == Some(data),
        forall|k: u64|
            slot_of(k, before.spec_mask()) != slot_of(key, before.spec_mask()) ==> after.lookup(k)
                == before.lookup(k),
{
    crate::bits::lemma_xor_algebra(key, data.0, 0, 0, 0);
}

} // verus!
