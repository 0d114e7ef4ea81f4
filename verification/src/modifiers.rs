//! Modifiers: tagged changes to a card's stats or to a player, each produced
//! by a source card and removable one by one (by id) or all together (by
//! source).

use vstd::prelude::*;

use crate::ids::CardId;

verus! {

/// A modifier instance: a unique `id`, the `source` card that produced it,
/// and what it changes.
#[derive(Debug, PartialEq, Eq, Clone, Copy, Structural)]
pub struct Modifier {
    pub id: u32,
    pub source: CardId,
    pub mod_type: ModifierType,
}

/// The kinds of modifier the stat queries fold.
#[derive(Debug, PartialEq, Eq, Clone, Copy, Structural)]
pub enum ModifierType {
    AtkChange(i32),
    DefChange(i32),
    SetAtk(i32),
    SetDef(i32),
    NoBattleDamage,
}

/// The fold priority of a modifier kind: sets form an earlier band (0) than
/// changes (1); the battle-damage guard has none.
pub open spec fn priority_of(m: ModifierType) -> Option<i32> {
    match m {
        ModifierType::SetAtk(_) | ModifierType::SetDef(_) => Some(0),
        ModifierType::AtkChange(_) | ModifierType::DefChange(_) => Some(1),
        ModifierType::NoBattleDamage => None,
    }
}

/// The modifier named by a `MOD_*` script code and its value.
pub open spec fn modifier_of_code(code: u32, value: i32) -> Option<ModifierType> {
    if code == 0 {
        Some(ModifierType::AtkChange(value))
    } else if code == 1 {
        Some(ModifierType::DefChange(value))
    } else if code == 2 {
        Some(ModifierType::SetAtk(value))
    } else if code == 3 {
        Some(ModifierType::SetDef(value))
    } else if code == 4 {
        Some(ModifierType::NoBattleDamage)
    } else {
        None
    }
}

impl ModifierType {
    /// Fold priority: lower applies first, ties broken by insertion order.
    /// `SetAtk`/`SetDef` sit in an earlier band than `AtkChange`/`DefChange`,
    /// so the final value is the set value plus every change, whatever order
    /// they were added in. `NoBattleDamage` is not part of any value fold.
    pub fn priority(&self) -> (p: Option<i32>)
        ensures
            p == priority_of(*self),
    {
        match self {
            ModifierType::SetAtk(_) | ModifierType::SetDef(_) => Some(0),
            ModifierType::AtkChange(_) | ModifierType::DefChange(_) => Some(1),
            ModifierType::NoBattleDamage => None,
        }
    }

    /// Build a `ModifierType` from the `MOD_*` code a script passes plus its
    /// value (ignored by value-less kinds). `None` for an unknown code.
    pub fn from_code(code: u32, value: i32) -> (m: Option<Self>)
        ensures
            m == modifier_of_code(code, value),
    {
        match code {
            0 => Some(ModifierType::AtkChange(value)),
            1 => Some(ModifierType::DefChange(value)),
            2 => Some(ModifierType::SetAtk(value)),
            3 => Some(ModifierType::SetDef(value)),
            4 => Some(ModifierType::NoBattleDamage),
            _ => None,
        }
    }
}

} // verus!
