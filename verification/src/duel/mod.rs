//! The whole game: the box that owns everything: the card arena, the board,
//! the processor stack, the player I/O buffers, and game state (life points,
//! win result).
//!
//! No object holds a link back to the `Duel`: code that needs the whole game
//! takes `&mut Duel` and looks things up by id.
//!
//! `impl Duel` is split across sibling files:
//! - `board`     — the arena, deck/hand, zones, movement, stats, life points,
//!                 wins and modifiers.
//! - `battle`    — declaring attacks and resolving battle.
//! - `driver`    — player I/O, turn control, the processor loop.
//! - `progress`  — why the processor loop always stops.
//! - `scripting` — effect activation, costs, the chain, events.


mod battle;
mod board;
mod driver;
mod progress;
mod scripting;

pub use battle::{battle_damage, battle_losers};
pub use board::{change_sum, fold_fits, lemma_plain_card_small, small_card, small_stat, stat_base, stat_value};
pub use driver::{grows, lemma_run_keeps_turns, lemma_step_fixed, prefix_of, ran, runs_on, stepped};
pub use progress::{asks_next, lemma_step_work, task_weight, work_left};

use vstd::prelude::*;

use std::collections::{BTreeMap, BTreeSet, VecDeque};

use crate::arena::{arena_cards, arena_issued, arena_new, arena_slots, probe_key, CardArena};
use crate::card::{Card, CardData};
use crate::chain::ChainLink;
use crate::constants::DuelMessage;
use crate::effect::{EffectContext, EffectInfo, Subscription};
use crate::event::DuelEvent;
use crate::field::Field;
use crate::ids::CardId;
use crate::modifiers::Modifier;
use crate::processor::Processor;
use crate::script::HostCall;
use crate::zone::Zone;

verus! {

/// The outcome of a decided duel.
#[derive(Debug, Clone, Copy, PartialEq, Eq, Structural)]
pub enum Winner {
    Player(usize),
    Draw,
}

/// Why the duel was decided.
#[derive(Debug, Clone, Copy, PartialEq, Eq, Structural)]
pub enum WinReason {
    LifePointsDepleted,
    DeckOut,
    Exodia,
}

/// The whole game.
pub struct Duel {
    /// Every card in the game, addressed by generational `CardId`.
    cards: CardArena,
    /// How many cards were ever put into the arena (stopping at `u64::MAX`);
    /// the arena has opened no more slots than this.
    added: u64,
    /// The board: zones and per-player piles.
    field: Field,
    /// Outbox: what the engine has emitted.
    messages: Vec<DuelMessage>,
    /// Inbox: the host's most recent answer.
    responses: Vec<u8>,
    /// The resumable to-do stack.
    processor_stack: Vec<Processor>,
    /// Safety backstop on how many turns run.
    max_turns: usize,
    /// Which player took each turn, in order.
    turn_hist: Vec<usize>,
    /// Normal Summons each player has used this turn (reset at turn start).
    normal_summons: [u8; 2],
    /// The most recently declared attack: `(attacker, target)`, a `None`
    /// target meaning a direct attack.
    last_attack: Option<(CardId, Option<CardId>)>,
    /// The id keys of the monsters that have already attacked this turn.
    attacked_this_turn: BTreeSet<u64>,
    lps: [u32; 2],
    decked_out: [bool; 2],
    result: Option<Winner>,
    win_reason: Option<WinReason>,
    /// Modifiers on each player (not on a card), e.g. "no battle damage".
    player_modifiers: [Vec<Modifier>; 2],
    /// Every effect the loaded cards registered, in registration order.
    effects: Vec<EffectInfo>,
    /// Static card definitions harvested from scripts, keyed by `code`.
    card_data: BTreeMap<u32, CardData>,
    /// The scratchpad shared with the running effect.
    effect_ctx: EffectContext,
    /// The activation frozen on a selection prompt: `(effect, card)`.
    pending: Option<(usize, CardId)>,
    /// Events raised and not yet processed, oldest first.
    events: VecDeque<DuelEvent>,
    /// The chain, link 1 first.
    chain: Vec<ChainLink>,
    /// Which players have passed the open response window.
    passes: [bool; 2],
    /// The player whose response window is open.
    responder: usize,
    /// The timing window open with no chain (e.g. damage calculation).
    window_timing: Option<u32>,
    /// Standing rules queued by scripts, in queue order.
    subscriptions: Vec<Subscription>,
    /// Every call made into the script host, oldest first.
    host_calls: Ghost<Seq<HostCall>>,
}

/// The mathematical state of a duel.
pub struct DuelView {
    /// The arena's live cards, by the arena form of their ids.
    pub cards: Map<u64, Card>,
    /// How many arena slots have been opened.
    pub slots: nat,
    /// Every id (in the arena's form) the arena has handed out and not
    /// forgotten; a removed id stays in it.
    pub issued: Set<u64>,
    /// How many cards were ever put into the arena (stopping at `u64::MAX`).
    pub added: nat,
    pub field: Field,
    pub messages: Seq<DuelMessage>,
    pub responses: Seq<u8>,
    pub stack: Seq<Processor>,
    pub max_turns: usize,
    pub turn_hist: Seq<usize>,
    pub normal_summons: Seq<u8>,
    pub last_attack: Option<(CardId, Option<CardId>)>,
    pub attacked: Set<u64>,
    pub lps: Seq<u32>,
    pub decked_out: Seq<bool>,
    pub result: Option<Winner>,
    pub win_reason: Option<WinReason>,
    pub player_mods: Seq<Seq<Modifier>>,
    pub effects: Seq<EffectInfo>,
    pub card_data: Map<u32, CardData>,
    pub ctx: EffectContext,
    pub pending: Option<(usize, CardId)>,
    pub events: Seq<DuelEvent>,
    pub chain: Seq<ChainLink>,
    pub passes: Seq<bool>,
    pub responder: usize,
    pub window_timing: Option<u32>,
    pub subscriptions: Seq<Subscription>,
    /// Every call made into the script host, oldest first.
    pub calls: Seq<HostCall>,
}

impl DuelView {
    /// The card `c` names, if it is live in the arena.
    pub open spec fn card(&self, c: CardId) -> Option<Card> {
        if self.cards.contains_key(probe_key(c.ffi())) {
            Some(self.cards[probe_key(c.ffi())])
        } else {
            None
        }
    }

    /// Where `c` is on the table, if placed.
    pub open spec fn location(&self, c: CardId) -> Option<(usize, Zone)> {
        self.field.location(c)
    }
}

impl View for Duel {
    type V = DuelView;

    closed spec fn view(&self) -> DuelView {
        DuelView {
            cards: arena_cards(self.cards),
            slots: arena_slots(self.cards),
            issued: arena_issued(self.cards),
            added: self.added as nat,
            field: self.field,
            messages: self.messages@,
            responses: self.responses@,
            stack: self.processor_stack@,
            max_turns: self.max_turns,
            turn_hist: self.turn_hist@,
            normal_summons: self.normal_summons@,
            last_attack: self.last_attack,
            attacked: self.attacked_this_turn@,
            lps: self.lps@,
            decked_out: self.decked_out@,
            result: self.result,
            win_reason: self.win_reason,
            player_mods: self.player_modifiers@.map_values(|v: Vec<Modifier>| v@),
            effects: self.effects@,
            card_data: self.card_data@,
            ctx: self.effect_ctx,
            pending: self.pending,
            events: self.events@,
            chain: self.chain@,
            passes: self.passes@,
            responder: self.responder,
            window_timing: self.window_timing,
            subscriptions: self.subscriptions@,
            calls: self.host_calls@,
        }
    }
}

impl Duel {
    /// The duel's internal order holds: the field's own order, every live
    /// id handed out by the arena, the shapes of the per-player arrays, and
    /// a reason recorded with every result.
    pub closed spec fn wf(&self) -> bool {
        &&& self.field.wf()
        &&& forall|k: u64| #[trigger] arena_cards(self.cards).contains_key(k) ==> probe_key(k) == k
        &&& arena_cards(self.cards).dom().subset_of(arena_issued(self.cards))
        &&& forall|k: u64| #[trigger] arena_issued(self.cards).contains(k) ==> probe_key(k) == k
        &&& arena_slots(self.cards) <= self.added
        &&& self@.lps.len() == 2
        &&& self@.decked_out.len() == 2
        &&& self@.normal_summons.len() == 2
        &&& self@.player_mods.len() == 2
        &&& self@.passes.len() == 2
        &&& self.result is Some ==> self.win_reason is Some
    }

    /// A decided duel always says why it was decided.
    pub proof fn lemma_result_has_reason(&self)
        requires
            self.wf(),
        ensures
            self@.result is Some ==> self@.win_reason is Some,
    {
    }

    /// What well-formedness says of the view: each per-player table has one
    /// entry per player, every live id has an odd generation and was handed
    /// out by the arena, the arena opened no more slots than cards were ever
    /// added, and a decided duel says why.
    pub proof fn lemma_wf_view(&self)
        requires
            self.wf(),
        ensures
            Duel::shaped(self@),
            forall|k: u64| #[trigger] self@.cards.contains_key(k) ==> probe_key(k) == k,
            self@.cards.dom().subset_of(self@.issued),
            forall|k: u64| #[trigger] self@.issued.contains(k) ==> probe_key(k) == k,
            self@.slots <= self@.added,
            self@.result is Some ==> self@.win_reason is Some,
    {
    }

    /// Each per-player table of `v` has exactly two entries.
    pub open spec fn shaped(v: DuelView) -> bool {
        &&& v.lps.len() == 2
        &&& v.decked_out.len() == 2
        &&& v.normal_summons.len() == 2
        &&& v.player_mods.len() == 2
        &&& v.passes.len() == 2
    }

    /// A fresh duel: empty arena and table, empty outbox, inbox and stack,
    /// both players at 8000 LP, nothing decided, a 10000-turn backstop, no
    /// effects or definitions registered.
    pub open spec fn is_fresh(v: DuelView) -> bool {
        &&& v.cards == Map::<u64, Card>::empty()
        &&& v.slots == 0
        &&& v.issued == Set::<u64>::empty()
        &&& v.added == 0
        &&& v.field.locs() == Map::<u64, (usize, Zone)>::empty()
        &&& v.field.deck(0).len() == 0
        &&& v.field.deck(1).len() == 0
        &&& v.field.hand(0).len() == 0
        &&& v.field.hand(1).len() == 0
        &&& v.messages.len() == 0
        &&& v.responses.len() == 0
        &&& v.stack.len() == 0
        &&& v.max_turns == 10000
        &&& v.turn_hist.len() == 0
        &&& v.normal_summons == seq![0u8, 0u8]
        &&& v.last_attack is None
        &&& v.attacked == Set::<u64>::empty()
        &&& v.lps == seq![8000u32, 8000u32]
        &&& v.decked_out == seq![false, false]
        &&& v.result is None
        &&& v.win_reason is None
        &&& v.player_mods == seq![Seq::<Modifier>::empty(), Seq::<Modifier>::empty()]
        &&& v.effects.len() == 0
        &&& v.card_data == Map::<u32, CardData>::empty()
        &&& v.ctx.is_empty()
        &&& v.pending is None
        &&& v.events.len() == 0
        &&& v.chain.len() == 0
        &&& v.passes == seq![false, false]
        &&& v.responder == 0
        &&& v.window_timing is None
        &&& v.subscriptions.len() == 0
        &&& v.calls.len() == 0
    }

    /// A fresh duel (see [`Duel::is_fresh`]).
    pub fn new() -> (d: Self)
        ensures
            d.wf(),
            Duel::is_fresh(d@),
            Duel::sound(d@),
    {
        let d = Duel {
            cards: arena_new(),
            added: 0,
            field: Field::new(),
            messages: Vec::new(),
            responses: Vec::new(),
            processor_stack: Vec::new(),
            max_turns: 10000,
            turn_hist: Vec::new(),
            normal_summons: [0, 0],
            last_attack: None,
            attacked_this_turn: BTreeSet::new(),
            lps: [8000, 8000],
            decked_out: [false, false],
            result: None,
            win_reason: None,
            player_modifiers: [Vec::new(), Vec::new()],
            effects: Vec::new(),
            card_data: BTreeMap::new(),
            effect_ctx: EffectContext::default(),
            pending: None,
            events: VecDeque::new(),
            chain: Vec::new(),
            passes: [false, false],
            responder: 0,
            window_timing: None,
            subscriptions: Vec::new(),
            host_calls: Ghost(Seq::empty()),
        };
        assert(d@.normal_summons =~= seq![0u8, 0u8]);
        assert(d@.lps =~= seq![8000u32, 8000u32]);
        assert(d@.decked_out =~= seq![false, false]);
        assert(d@.passes =~= seq![false, false]);
        assert(d@.player_mods =~= seq![Seq::<Modifier>::empty(), Seq::<Modifier>::empty()]);
        d
    }
}

impl Default for Duel {
    fn default() -> (d: Self)
        ensures
            d.wf(),
            Duel::is_fresh(d@),
            Duel::sound(d@),
    {
        Duel::new()
    }
}

} // verus!
