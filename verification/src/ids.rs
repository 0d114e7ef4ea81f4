//! Tickets: how objects refer to each other. Every card lives in an arena
//! and is found again by a small copyable `CardId`, never by a pointer.

use vstd::prelude::*;

verus! {

/// Exchange the two 32-bit halves of a 64-bit word.
pub open spec fn swap_halves(x: u64) -> u64 {
    ((x & 0xffff_ffffu64) << 32u64) | (x >> 32u64)
}

/// Exchanging the halves twice gives the word back.
pub proof fn lemma_swap_halves_involutive(x: u64)
    ensures
        swap_halves(swap_halves(x)) == x,
{
    assert(((((x & 0xffff_ffffu64) << 32u64) | (x >> 32u64)) & 0xffff_ffffu64) << 32u64
        | ((((x & 0xffff_ffffu64) << 32u64) | (x >> 32u64)) >> 32u64) == x) by (bit_vector);
}

/// The ticket for one card in the duel's card arena.
///
/// `key` holds the arena slot index in its high half and the slot's
/// generation in its low half, so ids order by slot first, then generation.
/// The arena itself speaks of the same key with the halves the other way
/// round (generation high, slot low): that form is [`CardId::ffi`].
#[derive(Debug, Clone, Copy, PartialEq, Eq, Structural)]
pub struct CardId {
    pub key: u64,
}

impl CardId {
    /// The arena's own 64-bit form of this id (generation high, slot low).
    pub open spec fn ffi(self) -> u64 {
        swap_halves(self.key)
    }

    /// The id whose arena form is `f`.
    pub fn from_ffi(f: u64) -> (c: CardId)
        ensures
            c.key == swap_halves(f),
            c.ffi() == f,
    {
        proof {
            lemma_swap_halves_involutive(f);
        }
        CardId { key: ((f & 0xffff_ffffu64) << 32u64) | (f >> 32u64) }
    }

    /// This id's arena form (generation high, slot low).
    pub fn to_ffi(self) -> (f: u64)
        ensures
            f == self.ffi(),
    {
        ((self.key & 0xffff_ffffu64) << 32u64) | (self.key >> 32u64)
    }
}

} // verus!
