//! The effect context (a scratchpad shared between the duel and the effect
//! currently running), effect kinds, spell speed, and the id encoding used at
//! the script boundary.
//!
//! An effect's stages run in the script host. Its verbs never touch the duel
//! directly: they record intents into the [`EffectContext`], and the duel
//! applies those records after the stage runs ("describe, then execute").

use vstd::prelude::*;

use crate::event::EventSnapshot;
use crate::arena::probe_key;
use crate::ids::{swap_halves, CardId};
use crate::modifiers::ModifierType;
use crate::zone::{zone_of_code, Zone};

verus! {

/// A standing rule a script queued: when `event` fires, run the script
/// closure `handle` (kept by the script host), at most `remaining` more times.
#[derive(Debug, Clone, Copy, PartialEq, Eq, Structural)]
pub struct Subscription {
    pub event: u32,
    pub remaining: u32,
    pub handle: usize,
}

/// Scratchpad shared between the duel and the effect currently running.
/// Verbs write here; the duel reads it back.
#[derive(Debug)]
pub struct EffectContext {
    /// The chosen targets for the resolving effect.
    pub targets: Vec<CardId>,
    /// Cards the script asked to destroy (applied by the duel afterward).
    pub to_destroy: Vec<CardId>,
    /// Cards the script asked to send somewhere: a plain move, not a
    /// destruction.
    pub to_move: Vec<(CardId, Zone)>,
    /// Costs the script declared in its `cost` stage.
    pub costs: Vec<CostType>,
    /// The player activating the effect (scripts speak relative to them).
    pub activator: usize,
    /// The candidate set of the effect's current selection prompt.
    pub candidates: Vec<CardId>,
    /// The card whose effect is running.
    pub self_card: Option<CardId>,
    /// The event that fired the running trigger (code 0 for none).
    pub event: EventSnapshot,
    /// The battle damage each player would take from the battle being
    /// calculated, `[player0, player1]`.
    pub pending_damage: [u32; 2],
    /// The player whose turn it is.
    pub turn_player: usize,
    /// The last modifier id handed out (engine and scripts share it).
    pub next_modifier_id: u32,
    /// Player modifiers a script granted: `(id, player, source, kind)`.
    pub player_mods_to_add: Vec<(u32, usize, CardId, ModifierType)>,
    /// Modifier ids a script asked to remove.
    pub mods_to_remove: Vec<u32>,
    /// Standing rules a script queued.
    pub subscriptions_to_add: Vec<Subscription>,
}

impl EffectContext {
    /// A context with nothing recorded: no targets, intents, costs or
    /// candidates, player 0 acting on its own turn, no card, no event, no
    /// pending damage, no modifier id handed out yet.
    pub open spec fn is_empty(&self) -> bool {
        &&& self.targets@.len() == 0
        &&& self.to_destroy@.len() == 0
        &&& self.to_move@.len() == 0
        &&& self.costs@.len() == 0
        &&& self.activator == 0
        &&& self.candidates@.len() == 0
        &&& self.self_card is None
        &&& self.event.is_none()
        &&& self.pending_damage[0] == 0
        &&& self.pending_damage[1] == 0
        &&& self.turn_player == 0
        &&& self.next_modifier_id == 0
        &&& self.player_mods_to_add@.len() == 0
        &&& self.mods_to_remove@.len() == 0
        &&& self.subscriptions_to_add@.len() == 0
    }

    /// The `destroy` verb: record the cards the script-side integers `ids`
    /// stand for, in order, to be destroyed.
    pub fn record_destroy(&mut self, ids: &[i64])
        ensures
            final(self).to_destroy@ == old(self).to_destroy@ + ids@.map_values(|n: i64| decoded(n)),
            *final(self) == (EffectContext { to_destroy: final(self).to_destroy, ..*old(self) }),
    {
        let ghost start = self.to_destroy@;
        let mut i: usize = 0;
        while i < ids.len()
            invariant
                i <= ids@.len(),
                self.to_destroy@ == start + ids@.take(i as int).map_values(|n: i64| decoded(n)),
                *self == (EffectContext { to_destroy: self.to_destroy, ..*old(self) }),
                start == old(self).to_destroy@,
            decreases ids@.len() - i,
        {
            let id = decode(ids[i]);
            self.to_destroy.push(id);
            i = i + 1;
            assert(self.to_destroy@ =~= start + ids@.take(i as int).map_values(|n: i64| decoded(n)));
        }
        assert(ids@.take(i as int) =~= ids@);
    }

    /// The `send` verb: record a plain move of the cards `ids` stand for, in
    /// order, to the zone `zone` is the code of; an unknown code records
    /// nothing.
    pub fn record_send(&mut self, ids: &[i64], zone: u32)
        ensures
            match zone_of_code(zone) {
                Some(z) => final(self).to_move@ == old(self).to_move@ + ids@.map_values(|n: i64| (decoded(n), z)),
                None => final(self).to_move@ == old(self).to_move@,
            },
            *final(self) == (EffectContext { to_move: final(self).to_move, ..*old(self) }),
    {
        let z = match Zone::from_code(zone) {
            Some(z) => z,
            None => {
                return;
            },
        };
        let ghost start = self.to_move@;
        let mut i: usize = 0;
        while i < ids.len()
            invariant
                i <= ids@.len(),
                self.to_move@ == start + ids@.take(i as int).map_values(|n: i64| (decoded(n), z)),
                *self == (EffectContext { to_move: self.to_move, ..*old(self) }),
                start == old(self).to_move@,
            decreases ids@.len() - i,
        {
            let id = decode(ids[i]);
            self.to_move.push((id, z));
            i = i + 1;
            assert(self.to_move@ =~= start + ids@.take(i as int).map_values(|n: i64| (decoded(n), z)));
        }
        assert(ids@.take(i as int) =~= ids@);
    }

    /// The `pay_lp` verb: declare a cost of `n` life points.
    pub fn record_lp_cost(&mut self, n: u32)
        ensures
            final(self).costs@ == old(self).costs@.push(CostType::LifePoints(n)),
            *final(self) == (EffectContext { costs: final(self).costs, ..*old(self) }),
    {
        self.costs.push(CostType::LifePoints(n));
    }

    /// The `prompt_selection` verb: the candidates offered are the cards
    /// `ids` stand for, in order.
    pub fn record_candidates(&mut self, ids: &[i64])
        ensures
            final(self).candidates@ == ids@.map_values(|n: i64| decoded(n)),
            *final(self) == (EffectContext { candidates: final(self).candidates, ..*old(self) }),
    {
        let mut picked: Vec<CardId> = Vec::new();
        let mut i: usize = 0;
        while i < ids.len()
            invariant
                i <= ids@.len(),
                picked@ == ids@.take(i as int).map_values(|n: i64| decoded(n)),
            decreases ids@.len() - i,
        {
            picked.push(decode(ids[i]));
            i = i + 1;
            assert(picked@ =~= ids@.take(i as int).map_values(|n: i64| decoded(n)));
        }
        assert(ids@.take(i as int) =~= ids@);
        self.candidates = picked;
    }
}

/// The `monster_zone` verb: the cards in the Monster Zone of the player
/// the script means by `who` (see [`relative_player`]), encoded, given each
/// player's Monster Zone as the stage sees it.
pub fn script_monster_zone(zones: &[Vec<CardId>; 2], who: usize, activator: usize) -> (r: Vec<i64>)
    ensures
        r@.len() == zones@[(who as int + activator as int) % 2]@.len(),
        forall|i: int|
            0 <= i < r@.len() ==> r@[i] == zones@[(who as int + activator as int) % 2]@[i].ffi() as i64,
{
    let p = relative_player(who, activator);
    encode_ids(zones[p].as_slice())
}

impl Default for EffectContext {
    fn default() -> (c: Self)
        ensures
            c.is_empty(),
    {
        EffectContext {
            targets: Vec::new(),
            to_destroy: Vec::new(),
            to_move: Vec::new(),
            costs: Vec::new(),
            activator: 0,
            candidates: Vec::new(),
            self_card: None,
            event: EventSnapshot::default(),
            pending_damage: [0, 0],
            turn_player: 0,
            next_modifier_id: 0,
            player_mods_to_add: Vec::new(),
            mods_to_remove: Vec::new(),
            subscriptions_to_add: Vec::new(),
        }
    }
}

/// A cost an effect declares in its `cost` stage.
#[derive(Debug, Clone, Copy, PartialEq, Eq, Structural)]
pub enum CostType {
    /// Pay N life points.
    LifePoints(u32),
    /// Discard this card from the hand (sent to the GY, not destroyed).
    Discard(CardId),
}

/// How/where an effect is activated. The numbers match the script-side
/// `ACTIVATE`/`IGNITION`/`QUICK`/`TRIGGER` constants.
#[derive(Debug, Clone, Copy, PartialEq, Eq, Structural)]
pub enum EffectKind {
    /// A Spell/Trap card's activation: from the hand (or a set S/T zone).
    Activate,
    /// A manual effect on a card you control, on your Main Phase.
    Ignition,
    /// A quick effect.
    Quick,
    /// Fires on an event.
    Trigger,
}

/// The kind named by a script kind code (0 or unknown is `Activate`).
pub open spec fn kind_of_code(code: u32) -> EffectKind {
    if code == 1 {
        EffectKind::Ignition
    } else if code == 2 {
        EffectKind::Quick
    } else if code == 3 {
        EffectKind::Trigger
    } else {
        EffectKind::Activate
    }
}

impl EffectKind {
    /// Map a script kind code to an `EffectKind` (0/unknown is `Activate`).
    pub fn from_code(code: u32) -> (k: Self)
        ensures
            k == kind_of_code(code),
    {
        match code {
            1 => EffectKind::Ignition,
            2 => EffectKind::Quick,
            3 => EffectKind::Trigger,
            _ => EffectKind::Activate,
        }
    }
}

/// A registered effect, as the engine reads it: the card code it belongs to,
/// its kind, the event it is keyed to (0 for none), and whether a trigger is
/// optional. Its stages themselves live in the script host.
#[derive(Debug, Clone, Copy, PartialEq, Eq, Structural)]
pub struct EffectInfo {
    pub code: u32,
    pub kind: EffectKind,
    pub event: u32,
    pub optional: bool,
}

/// Card-type bit of a Spell.
pub const TYPE_SPELL: u32 = 0x2;

/// Card-type bit of a Trap.
pub const TYPE_TRAP: u32 = 0x4;

/// Spell subtype of a Quick-Play Spell.
pub const SPELL_QUICKPLAY: u32 = 2;

/// Trap subtype of a Counter Trap.
pub const TRAP_COUNTER: u32 = 3;

/// An effect's spell speed: `Quick` is 2; `Ignition` and `Trigger` are 1; a
/// Trap activation is 3 for a Counter Trap and 2 otherwise; a Spell
/// activation is 2 for a Quick-Play Spell and 1 otherwise; any other
/// activation (a monster's) is 0.
pub open spec fn speed(
    kind: EffectKind,
    card_type: u32,
    spell_type: Option<u32>,
    trap_type: Option<u32>,
) -> u8 {
    match kind {
        EffectKind::Quick => 2,
        EffectKind::Ignition | EffectKind::Trigger => 1,
        EffectKind::Activate => {
            if card_type & TYPE_TRAP != 0 {
                if trap_type == Some(TRAP_COUNTER) {
                    3
                } else {
                    2
                }
            } else if card_type & TYPE_SPELL != 0 {
                if spell_type == Some(SPELL_QUICKPLAY) {
                    2
                } else {
                    1
                }
            } else {
                0
            }
        },
    }
}

/// An effect's spell speed (0..3), a pure function of its kind plus the
/// owning card's type and subtype. It gates responses: speed 1 can only start
/// a chain, and a response must be at least the current top link's speed.
pub fn spell_speed(
    kind: EffectKind,
    card_type: u32,
    spell_type: Option<u32>,
    trap_type: Option<u32>,
) -> (s: u8)
    ensures
        s == speed(kind, card_type, spell_type, trap_type),
        s <= 3,
{
    match kind {
        EffectKind::Quick => 2,
        EffectKind::Ignition | EffectKind::Trigger => 1,
        EffectKind::Activate => {
            if card_type & TYPE_TRAP != 0 {
                if trap_type == Some(TRAP_COUNTER) {
                    3
                } else {
                    2
                }
            } else if card_type & TYPE_SPELL != 0 {
                if spell_type == Some(SPELL_QUICKPLAY) {
                    2
                } else {
                    1
                }
            } else {
                0
            }
        },
    }
}

/// A card id as the script side holds it: the arena's 64-bit key form,
/// reinterpreted as a signed integer.
pub fn encode(id: CardId) -> (n: i64)
    ensures
        n == id.ffi() as i64,
{
    id.to_ffi() as i64
}

/// The card id a script-side integer `n` stands for: the id whose arena
/// form is `n` with its generation forced odd.
pub open spec fn decoded(n: i64) -> CardId {
    CardId { key: swap_halves(probe_key(n as u64)) }
}

/// The card id a script-side integer stands for (the inverse of `encode` on
/// every live id). Like `KeyData::from_ffi`, it forces the generation odd, as
/// it is in every key the arena hands out.
pub fn decode(n: i64) -> (id: CardId)
    ensures
        id == decoded(n),
        id.ffi() == probe_key(n as u64),
{
    CardId::from_ffi((n as u64) | 0x1_0000_0000u64)
}

/// Decoding undoes encoding on every id with an odd generation, which is
/// every id the arena hands out (see [`crate::duel::Duel::add_card`]): the
/// integer handed to a script names the same card back.
pub proof fn lemma_decode_encode(id: CardId)
    requires
        probe_key(id.ffi()) == id.ffi(),
    ensures
        decoded(id.ffi() as i64) == id,
{
    let f = id.ffi();
    assert(((f as i64) as u64) == f) by (bit_vector);
    crate::ids::lemma_swap_halves_involutive(id.key);
}

/// Decoding gives back every id the duel's arena has handed out, live or
/// removed (see [`crate::duel::Duel::lemma_wf_view`]): each has an odd
/// generation.
pub proof fn lemma_decode_issued(issued: Set<u64>, id: CardId)
    requires
        forall|k: u64| #[trigger] issued.contains(k) ==> probe_key(k) == k,
        issued.contains(id.ffi()),
    ensures
        decoded(id.ffi() as i64) == id,
{
    lemma_decode_encode(id);
}

/// Encoding is one to one on ids with an odd generation.
pub proof fn lemma_encode_injective(a: CardId, b: CardId)
    requires
        probe_key(a.ffi()) == a.ffi(),
        probe_key(b.ffi()) == b.ffi(),
        a.ffi() as i64 == b.ffi() as i64,
    ensures
        a == b,
{
    lemma_decode_encode(a);
    lemma_decode_encode(b);
}

/// The player a script means by `who` (0: the activating player, 1: their
/// opponent, and so on alternately), given who activated.
pub fn relative_player(who: usize, activator: usize) -> (p: usize)
    ensures
        p == (who as int + activator as int) % 2,
{
    if who % 2 == activator % 2 {
        0
    } else {
        1
    }
}

/// Encode a list of card ids into the list a script sees.
pub fn encode_ids(ids: &[CardId]) -> (r: Vec<i64>)
    ensures
        r@.len() == ids@.len(),
        forall|i: int| 0 <= i < ids@.len() ==> r@[i] == ids@[i].ffi() as i64,
{
    let mut r: Vec<i64> = Vec::new();
    let mut i: usize = 0;
    while i < ids.len()
        invariant
            i <= ids@.len(),
            r@.len() == i,
            forall|j: int| 0 <= j < i ==> r@[j] == ids@[j].ffi() as i64,
        decreases ids@.len() - i,
    {
        r.push(encode(ids[i]));
        i = i + 1;
    }
    r
}

} // verus!
