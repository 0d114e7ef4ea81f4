//! One card sitting on the table.
//!
//! A `Card` is an instance (a physical copy). Its printed numbers come from
//! [`CardData`], the static definition harvested from the card's script and
//! keyed by `code`. Anywhere a card would point at another card, it holds a
//! [`crate::ids::CardId`] ticket instead.

use vstd::prelude::*;

use crate::modifiers::Modifier;
use crate::position::Position;
use crate::reason::Reason;

verus! {

/// The static definition of a card: its printed numbers, shared by every
/// copy of that `code`. `card_type`, `attribute` and `race` are bitmasks;
/// ATK/DEF are signed so "?" (-2) fits.
#[derive(Debug, PartialEq, Eq)]
pub struct CardData {
    /// Card type: a bitmask of `TYPE_*` flags.
    pub card_type: u32,
    /// Spell subtype, `None` unless this card is a Spell.
    pub spell_type: Option<u32>,
    /// Trap subtype, `None` unless this card is a Trap.
    pub trap_type: Option<u32>,
    /// Attack (signed: -2 means "?").
    pub atk: i32,
    /// Defense (signed: -2 means "?").
    pub def: i32,
    /// Level / rank / link rating; `None` for Spells and Traps.
    pub level: Option<u32>,
    /// Attribute: a bitmask (monsters have exactly one).
    pub attribute: u32,
    /// Monster type ("race"): a bitmask.
    pub race: u64,
    /// The card's rules text.
    pub text: String,
    /// The card's name.
    pub name: String,
}

impl CardData {
    /// A definition with every number zero and empty text: what an unknown
    /// code is made with.
    pub open spec fn is_blank(&self) -> bool {
        &&& self.card_type == 0
        &&& self.spell_type is None
        &&& self.trap_type is None
        &&& self.atk == 0
        &&& self.def == 0
        &&& self.level is None
        &&& self.attribute == 0
        &&& self.race == 0
        &&& self.text@ == Seq::<char>::empty()
        &&& self.name@ == Seq::<char>::empty()
    }
}

impl Clone for CardData {
    fn clone(&self) -> (r: Self)
        ensures
            r == *self,
    {
        CardData {
            card_type: self.card_type,
            spell_type: self.spell_type,
            trap_type: self.trap_type,
            atk: self.atk,
            def: self.def,
            level: self.level,
            attribute: self.attribute,
            race: self.race,
            text: self.text.clone(),
            name: self.name.clone(),
        }
    }
}

impl Default for CardData {
    fn default() -> (d: Self)
        ensures
            d.is_blank(),
    {
        CardData {
            card_type: 0,
            spell_type: None,
            trap_type: None,
            atk: 0,
            def: 0,
            level: None,
            attribute: 0,
            race: 0,
            text: String::new(),
            name: String::new(),
        }
    }
}

/// One physical card instance.
#[derive(Debug)]
pub struct Card {
    /// The card's code: the key into the loaded definitions.
    pub code: u32,
    /// This copy's printed stats (stamped from the definition at creation).
    pub data: CardData,
    /// Battle position: only meaningful while in a Monster Zone.
    pub position: Position,
    /// The player who owns this card (whose deck it belongs to).
    pub owner: usize,
    /// Why the card most recently left its place: a `REASON_*` bitmask.
    pub reason: Reason,
    /// The stat modifiers on this card, in the order they were added.
    pub modifiers: Vec<Modifier>,
}

impl Card {
    /// A card of `code` carrying `data`, in the state every fresh card has:
    /// face-up attack position, owned by player 0, no reason, no modifiers.
    pub open spec fn is_fresh(&self, code: u32, data: CardData) -> bool {
        &&& self.code == code
        &&& self.data == data
        &&& self.position == Position::FaceUpAttack
        &&& self.owner == 0
        &&& self.reason == 0
        &&& self.modifiers@ == Seq::<Modifier>::empty()
    }

    /// A bare card with just a code and blank stats.
    pub fn new(code: u32) -> (c: Self)
        ensures
            c.code == code,
            c.data.is_blank(),
            c.position == Position::FaceUpAttack,
            c.owner == 0,
            c.reason == 0,
            c.modifiers@ == Seq::<Modifier>::empty(),
    {
        Card::with_data(code, CardData::default())
    }

    /// A card with an explicit definition stamped on.
    pub fn with_data(code: u32, data: CardData) -> (c: Self)
        ensures
            c.is_fresh(code, data),
    {
        Card {
            code,
            data,
            position: Position::FaceUpAttack,
            owner: 0,
            reason: 0,
            modifiers: Vec::new(),
        }
    }
}

impl Default for Card {
    fn default() -> (c: Self)
        ensures
            c.code == 0,
            c.data.is_blank(),
            c.position == Position::FaceUpAttack,
            c.owner == 0,
            c.reason == 0,
            c.modifiers@ == Seq::<Modifier>::empty(),
    {
        Card::new(0)
    }
}

} // verus!
