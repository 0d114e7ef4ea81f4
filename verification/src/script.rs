//! The card-script host: where each effect's stages (`condition`, `target`,
//! `cost`, `resolve`) and queued rules actually run.
//!
//! The duel never runs script code itself. Whenever a rule needs a stage, the
//! duel hands the host a read-only view of itself and the effect context;
//! the stage's verbs record their intents into that context (targets chosen,
//! cards to destroy or move, costs, modifiers, queued rules), and the duel
//! then applies the records ("describe, then execute"). Nothing is assumed of
//! what a host does: every rule holds whatever it answers. The duel keeps a
//! ghost record of every call it makes (see [`HostCall`]), and the contracts
//! say what it does with each answer.

use vstd::prelude::*;

use crate::duel::Duel;
use crate::effect::EffectContext;

verus! {

/// A failure on the script side (a missing stage, a runtime error).
#[derive(Debug, Clone, PartialEq, Eq)]
pub struct ScriptError {
    pub message: String,
}

/// Which stage a call into the script host ran.
pub enum Stage {
    Condition,
    /// The `target` stage, its paused coroutine kept for `resume` or not.
    Target { keep: bool },
    Resume,
    Cost,
    Resolve,
    /// A queued rule (its `effect` is the rule's handle).
    Fire,
}

/// One call the duel made into its script host: the stage, the effect (or
/// rule handle) it ran, the effect context handed in, the context handed
/// back, and the answer (a stage that answers nothing gives `Ok(true)` when
/// it ran through).
pub struct HostCall {
    pub stage: Stage,
    pub effect: usize,
    pub handed: EffectContext,
    pub returned: EffectContext,
    pub answer: Result<bool, ScriptError>,
}

/// The answer a stage that answers nothing is recorded with.
pub open spec fn ran_through(r: Result<(), ScriptError>) -> Result<bool, ScriptError> {
    match r {
        Ok(_) => Ok(true),
        Err(e) => Err(e),
    }
}

/// Runs card scripts for a duel.
pub trait ScriptHost {
    /// Run registered effect `effect`'s `condition` stage; `Ok(b)` is what it
    /// returned.
    fn condition(&mut self, duel: &Duel, ctx: &mut EffectContext, effect: usize) -> Result<
        bool,
        ScriptError,
    >;

    /// Start effect `effect`'s `target` stage on a fresh coroutine.
    /// `Ok(true)`: it paused asking for a selection (the offered set is in
    /// `ctx.candidates`); when `keep`, the paused coroutine is kept for
    /// `resume`, otherwise it is dropped. `Ok(false)`: it finished.
    fn target(&mut self, duel: &Duel, ctx: &mut EffectContext, effect: usize, keep: bool) -> Result<
        bool,
        ScriptError,
    >;

    /// Resume the kept `target` coroutine, handing it `ctx.targets` as the
    /// chosen cards, and let it finish.
    fn resume(&mut self, duel: &Duel, ctx: &mut EffectContext) -> Result<(), ScriptError>;

    /// Run effect `effect`'s `cost` stage (its verbs declare costs).
    fn cost(&mut self, duel: &Duel, ctx: &mut EffectContext, effect: usize) -> Result<(), ScriptError>;

    /// Run effect `effect`'s `resolve` stage (its verbs record intents).
    fn resolve(&mut self, duel: &Duel, ctx: &mut EffectContext, effect: usize) -> Result<
        (),
        ScriptError,
    >;

    /// Run the queued rule `handle` (its verbs record intents).
    fn fire(&mut self, duel: &Duel, ctx: &mut EffectContext, handle: usize) -> Result<(), ScriptError>;
}

/// The host of a duel with no scripts loaded: every stage is missing.
pub struct NoScripts;

impl NoScripts {
    /// The error every stage of this host gives.
    fn missing() -> (e: ScriptError)
        ensures
            e.message@ == Seq::<char>::empty(),
    {
        ScriptError { message: String::new() }
    }
}

impl ScriptHost for NoScripts {
    fn condition(&mut self, duel: &Duel, ctx: &mut EffectContext, effect: usize) -> (r: Result<
        bool,
        ScriptError,
    >)
        ensures
            r is Err,
            *final(ctx) == *old(ctx),
    {
        Err(NoScripts::missing())
    }

    fn target(&mut self, duel: &Duel, ctx: &mut EffectContext, effect: usize, keep: bool) -> (r: Result<
        bool,
        ScriptError,
    >)
        ensures
            r is Err,
            *final(ctx) == *old(ctx),
    {
        Err(NoScripts::missing())
    }

    fn resume(&mut self, duel: &Duel, ctx: &mut EffectContext) -> (r: Result<(), ScriptError>)
        ensures
            r is Err,
            *final(ctx) == *old(ctx),
    {
        Err(NoScripts::missing())
    }

    fn cost(&mut self, duel: &Duel, ctx: &mut EffectContext, effect: usize) -> (r: Result<(), ScriptError>)
        ensures
            r is Err,
            *final(ctx) == *old(ctx),
    {
        Err(NoScripts::missing())
    }

    fn resolve(&mut self, duel: &Duel, ctx: &mut EffectContext, effect: usize) -> (r: Result<
        (),
        ScriptError,
    >)
        ensures
            r is Err,
            *final(ctx) == *old(ctx),
    {
        Err(NoScripts::missing())
    }

    fn fire(&mut self, duel: &Duel, ctx: &mut EffectContext, handle: usize) -> (r: Result<(), ScriptError>)
        ensures
            r is Err,
            *final(ctx) == *old(ctx),
    {
        Err(NoScripts::missing())
    }
}

} // verus!
