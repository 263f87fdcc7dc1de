//! The per-thread dirty word: a phase and a dirty flag packed into 64 bits.
use vstd::prelude::*;

verus! {

/// The largest phase (exclusive) that fits in the upper 56 bits of a word.
pub const PHASE_LIMIT: u64 = 0x0100_0000_0000_0000;

/// Decoded content of a dirty word.
#[derive(Debug, PartialEq, Eq, Clone, Copy, Structural)]
pub struct DirtyValue {
    pub dirty: bool,
    pub phase: u64,
}

/// The phase stored in a packed word.
pub open spec fn word_phase(raw: u64) -> u64 {
    raw >> 8u64
}

/// The flag stored in the lowest bit of a packed word.
pub open spec fn word_flag(raw: u64) -> bool {
    raw & 1u64 == 1u64
}

/// The packed form of a phase and a flag: `(phase << 8) | flag`.
pub open spec fn pack_word(phase: u64, flag: bool) -> u64 {
    (phase << 8u64) | (if flag { 1u64 } else { 0u64 })
}

impl DirtyValue {
    pub fn from_u64(val: u64) -> (r: Self)
        ensures
            r.dirty == word_flag(val),
            r.phase == word_phase(val),
    {
        let dirty = val & 1 == 1;
        let phase = val >> 8;
        Self { dirty, phase }
    }

    pub fn to_u64(&self) -> (r: u64)
        ensures
            r == pack_word(self.phase, self.dirty),
    {
        let result = self.phase << 8;
        let dirty_mask: u64 = if self.dirty { 0x01 } else { 0x00 };
        result | dirty_mask
    }
}

/// Decoding a packed word gives back the phase and the flag that were packed,
/// for every phase that fits in 56 bits.
pub proof fn lemma_dirty_round_trip(phase: u64, dirty: bool)
    requires
        phase < PHASE_LIMIT,
    ensures
        word_phase(pack_word(phase, dirty)) == phase,
        word_flag(pack_word(phase, dirty)) == dirty,
{
    if dirty {
        assert((((phase << 8u64) | 1u64) >> 8u64) == phase && ((((phase << 8u64) | 1u64) & 1u64)
            == 1u64)) by (bit_vector)
            requires
                phase < 0x0100_0000_0000_0000u64,
        ;
    } else {
        assert((((phase << 8u64) | 0u64) >> 8u64) == phase && ((((phase << 8u64) | 0u64) & 1u64)
            != 1u64)) by (bit_vector)
            requires
                phase < 0x0100_0000_0000_0000u64,
        ;
    }
}

/// A dirty word owned by one thread: written by compare-and-set only.
pub struct Udirty {
    dirty_phase: u64,
}

impl View for Udirty {
    type V = u64;

    closed spec fn view(&self) -> u64 {
        self.dirty_phase
    }
}

impl Udirty {
    pub fn new() -> (r: Self)
        ensures
            r@ == 0,
    {
        Self { dirty_phase: 0 }
    }

    pub fn get(&self) -> (r: DirtyValue)
        ensures
            r.dirty == word_flag(self@),
            r.phase == word_phase(self@),
    {
        DirtyValue::from_u64(self.dirty_phase)
    }

    /// Replaces the word by `n_dirty` if it still holds `expected`; reports
    /// whether it did.
    pub fn update(&mut self, expected: u64, n_dirty: DirtyValue) -> (r: bool)
        ensures
            r == (old(self)@ == expected),
            r ==> final(self)@ == pack_word(n_dirty.phase, n_dirty.dirty),
            !r ==> final(self)@ == old(self)@,
    {
        let raw = n_dirty.to_u64();
        if self.dirty_phase == expected {
            self.dirty_phase = raw;
            true
        } else {
            false
        }
    }
}

} // verus!
