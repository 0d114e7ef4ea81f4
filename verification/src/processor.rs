//! The engine's heartbeat: a pausable to-do stack. Each task remembers how
//! far along it is, so the engine can freeze mid-job to ask a human and thaw
//! later exactly where it left off.

use vstd::prelude::*;

use crate::event::EventSnapshot;
use crate::ids::CardId;

pub use crate::constants::{MSG_SELECT_CARD, MSG_SELECT_IDLECMD};

verus! {

pub type Step = u16;

/// One task on the to-do stack, with its progress.
#[derive(Debug)]
pub enum Processor {
    Startup { step: Step },
    Turn { step: Step, player: usize },
    SelectCard { step: Step },
    IdleCommand { step: Step, player: usize },
    Activate { step: Step, card: CardId, slot: usize, player: usize },
    /// The Battle-Phase menu: offer `player`'s attackers, or move on.
    BattleCommand { step: Step, player: usize },
    /// A declared attack in progress: `attacker` picks a target (or attacks
    /// directly), then the attack is declared.
    Attack { step: Step, attacker: CardId, player: usize },
    OptionalTrigger { step: Step, effect: usize, card: CardId, player: usize, event: EventSnapshot },
    ResolveChain { step: usize },
    ChainResponse { step: usize, player: usize },
}

/// What the driver loop reports.
#[derive(Debug, PartialEq, Eq, Clone, Copy, Structural)]
pub enum DuelStatus {
    /// More work is queued and can run on (reported by a single step; the
    /// full loop runs on until it stops with one of the others).
    Continue,
    /// A task froze to ask a human; supply a response and run again.
    Awaiting,
    /// Nothing left to run (or the game is decided).
    End,
}

impl Processor {
    /// Whether pausing on a task of this kind means stopping to ask a human.
    pub open spec fn spec_needs_answer(&self) -> bool {
        !(self is Startup || self is Turn || self is ResolveChain)
    }

    /// Does pausing on a task of this kind mean stopping to ask a human?
    pub fn needs_answer(&self) -> (b: bool)
        ensures
            b == self.spec_needs_answer(),
    {
        match self {
            Processor::Startup { .. } | Processor::Turn { .. } => false,
            Processor::SelectCard { .. } => true,
            Processor::IdleCommand { .. } => true,
            Processor::Activate { .. } => true,
            Processor::BattleCommand { .. } => true,
            Processor::Attack { .. } => true,
            Processor::OptionalTrigger { .. } => true,
            Processor::ResolveChain { .. } => false,
            Processor::ChainResponse { .. } => true,
        }
    }
}

} // verus!
