//! Duel events: what happened (a card destroyed, a battle ended, a timing
//! window), queued so that triggers keyed to them can fire.

use vstd::prelude::*;

use std::collections::BTreeMap;

use crate::ids::CardId;
use crate::reason::Reason;

verus! {

pub const EVENT_DESTROYED: u32 = 1;
pub const EVENT_BATTLE_DESTROYED: u32 = 2;

/// Raised once a battle has fully resolved; subscriptions keyed to it fire.
pub const EVENT_BATTLE_ENDED: u32 = 4;

/// The timing windows around damage calculation: a QUICK effect keyed to one
/// of these may activate there.
pub const EVENT_PRE_DAMAGE_CALCULATION: u32 = 5;
pub const EVENT_POST_DAMAGE_CALCULATION: u32 = 6;

/// One queued event: its code, the card it concerns, why, and a bag of details.
pub struct DuelEvent {
    pub code: u32,
    pub card: CardId,
    pub reason: Reason,
    pub details: BTreeMap<String, EventDetail>,
}

/// A value carried in an event's detail bag.
#[derive(Clone, Debug)]
pub enum EventDetail {
    Card(CardId),
    Cards(Vec<CardId>),
    Int(i32),
    Bool(bool),
}

/// The frozen `(code, details)` of the event that fired a trigger, carried on
/// its chain link so the details are still readable when it resolves. Code 0
/// means "no event" (e.g. a plain Spell/Trap activation).
#[derive(Clone, Debug)]
pub struct EventSnapshot {
    pub code: u32,
    pub details: BTreeMap<String, EventDetail>,
}

impl EventSnapshot {
    /// The snapshot of no event: code 0, no details.
    pub open spec fn is_none(&self) -> bool {
        self.code == 0 && self.details@ == Map::<String, EventDetail>::empty()
    }

    /// Whether this snapshot records event `ev`: the same code and details.
    pub open spec fn records(&self, ev: DuelEvent) -> bool {
        self.code == ev.code && self.details@ == ev.details@
    }

    /// A copy of this snapshot: the same code and details.
    pub fn duplicate(&self) -> (s: Self)
        ensures
            s.code == self.code,
            s.details@ == self.details@,
    {
        EventSnapshot { code: self.code, details: self.details.clone() }
    }
}

impl Default for EventSnapshot {
    fn default() -> (s: Self)
        ensures
            s.is_none(),
    {
        EventSnapshot { code: 0, details: BTreeMap::new() }
    }
}

} // verus!
