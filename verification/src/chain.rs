//! A link on the chain: one activated effect waiting to resolve.

use vstd::prelude::*;

use crate::event::EventSnapshot;
use crate::ids::CardId;

verus! {

/// One chain link: which registered effect, on which card, activated by
/// whom, against which targets, and (for a trigger) the event that fired it.
pub struct ChainLink {
    pub effect_seq: usize,
    pub card: CardId,
    pub activator: usize,
    pub targets: Vec<CardId>,
    /// The event that fired this link (for a trigger); code 0 for a plain
    /// activation.
    pub event: EventSnapshot,
}

} // verus!
