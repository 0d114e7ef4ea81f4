//! The card arena: a generational slot map from the `slotmap` crate, behind
//! trusted items. Keys cross into the library as the map's own 64-bit form
//! (`KeyData::as_ffi`: generation in the high half, slot index in the low).

use vstd::prelude::*;

use slotmap::{DefaultKey, Key, KeyData, SlotMap};


use crate::card::Card;

verus! {

/// The card arena: cards keyed by the slot map's default key. The slot map
/// is held in a private field behind trusted items, since Verus refuses the
/// slot map's own declaration (its `Key` bound).
#[verifier::external_body]
pub struct CardArena {
    map: SlotMap<DefaultKey, Card>,
}

/// What the card arena holds: each live key (in its 64-bit form) and the card
/// stored under it.
pub uninterp spec fn arena_cards(a: CardArena) -> Map<u64, Card>;

/// How many slots the arena has ever opened (live or freed; the slot map's
/// unused slot 0 is not counted); slots are never given back, and an insert
/// with no freed slot to reuse panics once this reaches `u32::MAX - 1`.
pub uninterp spec fn arena_slots(a: CardArena) -> nat;

/// Every key the arena has handed out and not forgotten: for each opened
/// slot, every odd generation up to the slot's current one (so every such
/// key has an odd generation). A slot's
/// generation goes up by one at each insert into it and at each remove from
/// it, so a removed key stays in this set; only a remove at generation
/// `u32::MAX` (after `2^31` reuses of one slot) wraps the slot's generation
/// to 0 and drops that slot's keys from it.
pub uninterp spec fn arena_issued(a: CardArena) -> Set<u64>;

/// The key a lookup with `f` actually probes: `KeyData::from_ffi` forces the
/// generation odd, as it is in every live key.
pub open spec fn probe_key(f: u64) -> u64 {
    f | 0x1_0000_0000u64
}

/// Probing is idempotent: a probed key probes itself.
pub proof fn lemma_probe_idempotent(f: u64)
    ensures
        probe_key(probe_key(f)) == probe_key(f),
{
    assert((f | 0x1_0000_0000u64) | 0x1_0000_0000u64 == f | 0x1_0000_0000u64) by (bit_vector);
}

/// `SlotMap::with_key`: an empty arena with no slots.
#[verifier::external_body]
pub(crate) fn arena_new() -> (a: CardArena)
    ensures
        arena_cards(a) =~= Map::empty(),
        arena_slots(a) == 0,
        arena_issued(a) =~= Set::empty(),
{
    CardArena { map: SlotMap::with_key() }
}

/// `SlotMap::insert`: stores `card` under a key that was never handed out
/// before (see [`arena_issued`]) and returns that key. It reuses a freed
/// slot, one generation up, or opens one more at generation 1; it panics only
/// when no freed slot is left and `u32::MAX - 1` slots are open, which
/// `requires` leaves out. The returned key has an odd generation, as every
/// live key does.
#[verifier::external_body]
pub(crate) fn arena_insert(a: &mut CardArena, card: Card) -> (k: u64)
    requires
        arena_slots(*old(a)) < u32::MAX - 1,
    ensures
        !arena_cards(*old(a)).contains_key(k),
        arena_cards(*final(a)) == arena_cards(*old(a)).insert(k, card),
        probe_key(k) == k,
        arena_slots(*final(a)) <= arena_slots(*old(a)) + 1,
        !arena_issued(*old(a)).contains(k),
        arena_issued(*final(a)) == arena_issued(*old(a)).insert(k),
        arena_cards(*final(a)).dom().subset_of(arena_issued(*final(a))),
        forall|j: u64| #[trigger] arena_issued(*final(a)).contains(j) ==> probe_key(j) == j,
{
    a.map.insert(card).data().as_ffi()
}

/// `SlotMap::get`: the card under the key `f` probes, if it is live.
#[verifier::external_body]
pub(crate) fn arena_get(a: &CardArena, f: u64) -> (r: Option<&Card>)
    ensures
        match r {
            Some(c) => arena_cards(*a).contains_key(probe_key(f)) && *c == arena_cards(
                *a,
            )[probe_key(f)],
            None => !arena_cards(*a).contains_key(probe_key(f)),
        },
{
    a.map.get(DefaultKey::from(KeyData::from_ffi(f)))
}

/// `SlotMap::get_mut`: a mutable handle on the card under the key `f`
/// probes, if it is live; whatever is written through it is what the arena
/// holds afterwards. Nothing else changes.
#[verifier::external_body]
pub(crate) fn arena_get_mut(a: &mut CardArena, f: u64) -> (r: Option<&mut Card>)
    ensures
        match r {
            Some(c) => {
                &&& arena_cards(*old(a)).contains_key(probe_key(f))
                &&& *c == arena_cards(*old(a))[probe_key(f)]
                &&& arena_cards(*final(a)) == arena_cards(*old(a)).insert(probe_key(f), *final(c))
            },
            None => {
                &&& !arena_cards(*old(a)).contains_key(probe_key(f))
                &&& arena_cards(*final(a)) == arena_cards(*old(a))
            },
        },
        arena_slots(*final(a)) == arena_slots(*old(a)),
        arena_issued(*final(a)) == arena_issued(*old(a)),
{
    a.map.get_mut(DefaultKey::from(KeyData::from_ffi(f)))
}

/// `SlotMap::remove`: takes the card under the key `f` probes out of the
/// arena and returns it; `None` if that key is not live. Slots stay open.
/// The slot's generation goes up by one, so the removed key stays handed out
/// (see [`arena_issued`]) unless its generation was `u32::MAX`.
#[verifier::external_body]
pub(crate) fn arena_remove(a: &mut CardArena, f: u64) -> (r: Option<Card>)
    ensures
        match r {
            Some(c) => arena_cards(*old(a)).contains_key(probe_key(f)) && c == arena_cards(
                *old(a),
            )[probe_key(f)],
            None => !arena_cards(*old(a)).contains_key(probe_key(f)),
        },
        arena_cards(*final(a)) == arena_cards(*old(a)).remove(probe_key(f)),
        arena_slots(*final(a)) == arena_slots(*old(a)),
        r is None || probe_key(f) < 0xffff_ffff_0000_0000u64 ==> arena_issued(*final(a))
            == arena_issued(*old(a)),
        arena_cards(*final(a)).dom().subset_of(arena_issued(*final(a))),
        forall|j: u64| #[trigger] arena_issued(*final(a)).contains(j) ==> probe_key(j) == j,
{
    a.map.remove(DefaultKey::from(KeyData::from_ffi(f)))
}

/// `SlotMap::keys`: every live key, each once (in slot order).
#[verifier::external_body]
pub(crate) fn arena_keys(a: &CardArena) -> (ks: Vec<u64>)
    ensures
        ks@.no_duplicates(),
        ks@.to_set() == arena_cards(*a).dom(),
{
    a.map.keys().map(|k| k.data().as_ffi()).collect()
}

} // verus!
