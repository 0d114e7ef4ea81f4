//! Why a card left where it was: a bitmask of `REASON_*` flags, so sources
//! can combine (destruction by battle is `REASON_DESTROY | REASON_BATTLE`).

use vstd::prelude::*;

verus! {

pub type Reason = u32;

pub const REASON_DESTROY: Reason = 0x1;
pub const REASON_RELEASE: Reason = 0x2;
pub const REASON_BATTLE: Reason = 0x20;
pub const REASON_EFFECT: Reason = 0x40;
pub const REASON_COST: Reason = 0x80;
pub const REASON_RULE: Reason = 0x400;

} // verus!
