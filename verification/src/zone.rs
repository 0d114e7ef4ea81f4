//! The kinds of zone a card can sit in.

use vstd::prelude::*;

verus! {

/// A kind of zone on the table.
#[derive(Debug, Clone, Copy, PartialEq, Eq, Structural)]
pub enum Zone {
    Deck,
    Hand,
    MonsterZone,
    SpellTrapZone,
    GY,
    Banishment,
}

/// The zone named by a `ZONE_*` script code, if the code names one.
pub open spec fn zone_of_code(code: u32) -> Option<Zone> {
    if code == 0 {
        Some(Zone::Deck)
    } else if code == 1 {
        Some(Zone::Hand)
    } else if code == 2 {
        Some(Zone::MonsterZone)
    } else if code == 3 {
        Some(Zone::SpellTrapZone)
    } else if code == 4 {
        Some(Zone::GY)
    } else if code == 5 {
        Some(Zone::Banishment)
    } else {
        None
    }
}

impl Zone {
    /// Map a `ZONE_*` code (what the `send` verb passes) to a `Zone`; `None`
    /// for an unknown code.
    pub fn from_code(code: u32) -> (z: Option<Zone>)
        ensures
            z == zone_of_code(code),
    {
        match code {
            0 => Some(Zone::Deck),
            1 => Some(Zone::Hand),
            2 => Some(Zone::MonsterZone),
            3 => Some(Zone::SpellTrapZone),
            4 => Some(Zone::GY),
            5 => Some(Zone::Banishment),
            _ => None,
        }
    }
}

} // verus!
