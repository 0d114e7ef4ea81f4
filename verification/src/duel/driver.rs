//! Player I/O, turn control, and the task driver: the engine's heartbeat,
//! which runs the top task one step at a time and pauses to ask a human.

use vstd::prelude::*;

use crate::constants::{
    DuelMessage, CMD_ACTIVATE, CMD_ATTACK, CMD_NEXT_PHASE, CMD_PASS, CMD_RESPONSE, CMD_SET_SPELL_TRAP,
    CMD_SUMMON, MSG_NEW_TURN, MSG_PHASE_BATTLE, MSG_PHASE_DRAW, MSG_PHASE_END, MSG_PHASE_MAIN1,
    MSG_PHASE_MAIN2, MSG_PHASE_STANDBY, MSG_SELECT_ATTACK_TARGET, MSG_SELECT_BATTLECMD, MSG_SELECT_CARD,
    MSG_SELECT_CHAIN, MSG_SELECT_IDLECMD, MSG_SELECT_YESNO, MSG_STARTUP, PLAYER_0, PLAYER_1,
};
use crate::effect::EffectContext;
use crate::event::{EventSnapshot, EVENT_BATTLE_ENDED, EVENT_POST_DAMAGE_CALCULATION, EVENT_PRE_DAMAGE_CALCULATION};
use crate::ids::CardId;
use crate::processor::{DuelStatus, Processor};
use crate::script::{HostCall, NoScripts, ScriptError, ScriptHost};
use crate::zone::Zone;

use super::battle::{battle_losers, destroyed_all};
use super::board::{after_lp_loss, drew_cards, summoned};
use super::scripting::{
    activated, chain_resolved, events_done, lp_down, main_offers, options_offered, picked_from, quiet, resumed,
    offers_approved, rules_fired, send_step, stage_applied, with_ctx, with_stage,
};
use super::progress::{lemma_step_work, work_left};
use super::{Duel, DuelView};

verus! {

/// `a` is a prefix of `b`.
pub open spec fn prefix_of<T>(a: Seq<T>, b: Seq<T>) -> bool {
    a.len() <= b.len() && b.take(a.len() as int) == a
}

/// `w` comes after `v` in a run: the outbox and the turn record only grow,
/// no player's life points go up, and the inbox, the turn limit and the
/// effect registry are unchanged.
pub open spec fn runs_on(v: DuelView, w: DuelView) -> bool {
    &&& prefix_of(v.messages, w.messages)
    &&& prefix_of(v.turn_hist, w.turn_hist)
    &&& lp_down(v, w)
    &&& w.responses == v.responses
    &&& w.max_turns == v.max_turns
    &&& w.effects == v.effects
}

/// `w` comes after `v` in one task's step: as in [`runs_on`], and the
/// task stack only grows on top.
pub open spec fn grows(v: DuelView, w: DuelView) -> bool {
    runs_on(v, w) && prefix_of(v.stack, w.stack)
}

/// The message announcing phase `i` of a turn (0 is the new turn, then
/// the Draw, Standby, Main 1, Battle, Main 2 and End Phases).
pub open spec fn phase_msg(i: int) -> DuelMessage {
    if i == 0 {
        MSG_NEW_TURN
    } else if i == 1 {
        MSG_PHASE_DRAW
    } else if i == 2 {
        MSG_PHASE_STANDBY
    } else if i == 3 {
        MSG_PHASE_MAIN1
    } else if i == 4 {
        MSG_PHASE_BATTLE
    } else if i == 5 {
        MSG_PHASE_MAIN2
    } else {
        MSG_PHASE_END
    }
}

/// `v` with message `m` sent.
pub open spec fn sent(v: DuelView, m: DuelMessage) -> DuelView {
    DuelView { messages: v.messages.push(m), ..v }
}

/// `v` with task `u` queued on top.
pub open spec fn queued(v: DuelView, u: Processor) -> DuelView {
    DuelView { stack: v.stack.push(u), ..v }
}

/// Byte `i` of the inbox, or `default` past its end.
pub open spec fn answer(v: DuelView, i: int, default: u8) -> u8 {
    if 0 <= i < v.responses.len() {
        v.responses[i]
    } else {
        default
    }
}

/// `v` at the opening of `player`'s turn: the turn is recorded, Normal
/// Summons and attacks are available again, and the context knows whose
/// turn it is.
pub open spec fn turn_opened(v: DuelView, player: usize) -> DuelView {
    DuelView {
        turn_hist: v.turn_hist.push(player),
        normal_summons: seq![0u8, 0u8],
        attacked: Set::<u64>::empty(),
        ctx: EffectContext { turn_player: player, ..v.ctx },
        ..v
    }
}

/// `w` is `v` after `player` drew up to `count` cards.
pub open spec fn drew(v: DuelView, w: DuelView, player: usize, count: usize) -> bool {
    exists|drawn: Seq<CardId>| #![trigger drew_cards(v, w, player, count, drawn)] drew_cards(v, w, player, count, drawn)
}

/// The start-up task at `step` ran from `v` to `w`, leaving `r` to resume.
pub open spec fn startup_ran(v: DuelView, w: DuelView, step: u16, r: Option<Processor>) -> bool {
    if step == 0 {
        r == Some(Processor::Startup { step: 1 }) && w == sent(v, MSG_STARTUP)
    } else {
        r is None && w == queued(v, Processor::Turn { step: 0, player: PLAYER_0 })
    }
}

/// Phase `step` of `player`'s turn ran from `v` to `w` (see
/// [`Duel::run_turn`]).
pub open spec fn turn_ran(v: DuelView, w: DuelView, step: u16, player: usize, r: Option<Processor>) -> bool {
    let o = if step == 0 {
        turn_opened(v, player)
    } else {
        v
    };
    let m = sent(o, phase_msg(step as int));
    let next = Processor::Turn { step: (step + 1) as u16, player };
    if step == 3 || step == 5 {
        r == Some(next) && w == queued(m, Processor::IdleCommand { step: 0, player })
    } else if step == 4 {
        r == Some(next) && w == queued(m, Processor::BattleCommand { step: 0, player })
    } else if step == 6 {
        r is None && w == if m.turn_hist.len() < m.max_turns {
            queued(m, Processor::Turn { step: 0, player: (1 - player) as usize })
        } else {
            m
        }
    } else if step == 1 && m.turn_hist.len() > 1 {
        r == Some(next) && drew(m, w, player, 1)
    } else {
        r == Some(next) && w == m
    }
}

/// The stand-alone card prompt at `step` ran from `v` to `w`.
pub open spec fn select_ran(v: DuelView, w: DuelView, step: u16, r: Option<Processor>) -> bool {
    if step == 0 {
        r == Some(Processor::SelectCard { step: 1 }) && w == sent(v, MSG_SELECT_CARD)
    } else {
        r is None && w == v
    }
}

/// `player`'s Main-Phase menu at `step` ran from `v` to `w` (see
/// [`Duel::run_idle_command`]).
pub open spec fn idle_ran(v: DuelView, w: DuelView, step: u16, player: usize, r: Option<Processor>) -> bool {
    let command = answer(v, 0, CMD_NEXT_PHASE);
    let index = answer(v, 1, 0) as int;
    let hand = v.field.hand(player as int);
    let again = Processor::IdleCommand { step, player };
    if step == 0 {
        r == Some(Processor::IdleCommand { step: 1, player }) && w == sent(v, MSG_SELECT_IDLECMD)
    } else if command == CMD_NEXT_PHASE {
        r is None && w == v
    } else if command == CMD_SUMMON {
        &&& r == Some(again)
        &&& if index < hand.len() && v.normal_summons[player as int] < 1 {
            exists|s: DuelView|
                #![trigger summoned(v, s, hand[index])]
                summoned(v, s, hand[index]) && w == sent(
                    DuelView { normal_summons: s.normal_summons.update(player as int, 1), ..s },
                    MSG_SELECT_IDLECMD,
                )
        } else {
            w == sent(v, MSG_SELECT_IDLECMD)
        }
    } else if command == CMD_SET_SPELL_TRAP {
        &&& r == Some(again)
        &&& if index < hand.len() {
            exists|s: DuelView|
                #![trigger send_step(v, s, hand[index], Zone::SpellTrapZone)]
                send_step(v, s, hand[index], Zone::SpellTrapZone) && w == sent(s, MSG_SELECT_IDLECMD)
        } else {
            w == sent(v, MSG_SELECT_IDLECMD)
        }
    } else if command == CMD_ACTIVATE {
        &&& r is None
        &&& exists|offered: Seq<(CardId, usize)>|
            #![trigger picked_from(offered, main_offers(v, player))]
            picked_from(offered, main_offers(v, player)) && offers_approved(
                v,
                with_stage(v, w),
                main_offers(v, player),
                player,
                true,
                offered,
            ) && w == if index < offered.len() {
                queued(
                    with_stage(v, w),
                    Processor::Activate { step: 0, card: offered[index].0, slot: offered[index].1, player },
                )
            } else {
                with_stage(v, w)
            }
    } else {
        r == Some(again) && w == sent(v, MSG_SELECT_IDLECMD)
    }
}

/// The cards the inbox picks among the offered candidates: each byte in
/// range, in order.
pub open spec fn picks(v: DuelView) -> Seq<CardId> {
    v.responses.filter(|b: u8| (b as int) < v.ctx.candidates@.len()).map_values(
        |b: u8| v.ctx.candidates@[b as int],
    )
}

/// The tasks queued after an activation from `player`'s menu: the menu
/// again, under the chain's resolution, under the opponent's response
/// window.
pub open spec fn after_activation(player: usize) -> Seq<Processor> {
    seq![
        Processor::IdleCommand { step: 0, player },
        Processor::ResolveChain { step: 0 },
        Processor::ChainResponse { step: 0, player: (1 - player) as usize },
    ]
}

/// The menu activation task at `step` ran from `v` to `w` (see
/// [`Duel::run_activate`]).
pub open spec fn activate_ran(
    v: DuelView,
    w: DuelView,
    step: u16,
    card: CardId,
    slot: usize,
    player: usize,
    r: Option<Processor>,
) -> bool {
    if step == 0 {
        exists|a: DuelView, res: Result<DuelStatus, ScriptError>|
            #![trigger activated(v, a, card, slot, player, res)]
            activated(v, a, card, slot, player, res) && if res == Ok::<DuelStatus, ScriptError>(
                DuelStatus::Awaiting,
            ) {
                r == Some(Processor::Activate { step: 1, card, slot, player }) && w == sent(a, MSG_SELECT_CARD)
            } else {
                r is None && w == (DuelView { stack: a.stack + after_activation(player), ..a })
            }
    } else {
        &&& r is None
        &&& exists|a: DuelView, b: DuelView|
            #![trigger resumed_or_not(a, b)]
            {
                &&& a == (DuelView { ctx: EffectContext { targets: a.ctx.targets, ..v.ctx }, ..v })
                &&& a.ctx.targets@ == picks(v)
                &&& resumed_or_not(a, b)
                &&& w == (DuelView { stack: b.stack + after_activation(player), ..b })
            }
    }
}

/// `w` is `v` after the frozen activation, if any, was resumed.
pub open spec fn resumed_or_not(v: DuelView, w: DuelView) -> bool {
    if v.pending is Some {
        exists|res: Result<DuelStatus, ScriptError>| #![trigger resumed(v, w, res)] resumed(v, w, res)
    } else {
        w == v
    }
}

/// `player`'s Battle-Phase menu at `step` ran from `v` to `w` (see
/// [`Duel::run_battle_command`]).
pub open spec fn battle_menu_ran(v: DuelView, w: DuelView, step: u16, player: usize, r: Option<Processor>) -> bool {
    let command = answer(v, 0, CMD_NEXT_PHASE);
    let index = answer(v, 1, 0) as int;
    let ready = v.field.cards_at(player, Zone::MonsterZone).filter(|c: CardId| Duel::can_attack(v, c));
    if step == 0 {
        r == Some(Processor::BattleCommand { step: 1, player }) && w == sent(v, MSG_SELECT_BATTLECMD)
    } else if command == CMD_NEXT_PHASE {
        r is None && w == v
    } else if command == CMD_ATTACK && index < ready.len() {
        r is None && w == queued(v, Processor::Attack { step: 0, attacker: ready[index], player })
    } else {
        r == Some(Processor::BattleCommand { step, player }) && w == sent(v, MSG_SELECT_BATTLECMD)
    }
}

/// `w` is `v` after `attacker`'s attack on `target` was declared: the
/// attack is recorded, its damage step is queued, and the
/// before-damage-calculation window opened (or not).
pub open spec fn declared(v: DuelView, w: DuelView, attacker: CardId, target: Option<CardId>, player: usize) -> bool {
    let d = DuelView { last_attack: Some((attacker, target)), attacked: v.attacked.insert(attacker.key), ..v };
    exists|opened: bool|
        #![trigger Duel::window_opened(
            queued(d, Processor::Attack { step: 2, attacker, player }),
            w,
            EVENT_PRE_DAMAGE_CALCULATION,
            opened,
        )]
        Duel::window_opened(
            queued(d, Processor::Attack { step: 2, attacker, player }),
            w,
            EVENT_PRE_DAMAGE_CALCULATION,
            opened,
        )
}

/// The battle damage each player takes at the damage step of `v`: the
/// stashed damage, none to a player protected from battle damage.
pub open spec fn dealt(v: DuelView, p: int) -> u32 {
    if Duel::takes_battle_damage(v, p as usize) {
        v.ctx.pending_damage@[p]
    } else {
        0
    }
}

/// `w` is `v` after the damage step of the declared attack: the damage is
/// dealt (player 0's, then player 1's), the losers destroyed, the battle's
/// end queued, and the after-damage-calculation window opened (or not).
pub open spec fn battle_dealt(v: DuelView, w: DuelView, attacker: CardId, player: usize) -> bool {
    exists|c: DuelView, opened: bool|
        #![trigger Duel::window_opened(queued(c, Processor::Attack { step: 3, attacker, player }), w, EVENT_POST_DAMAGE_CALCULATION, opened)]
        {
            &&& match v.last_attack {
                Some((a, t)) => {
                    let hurt = after_lp_loss(after_lp_loss(v, 0, dealt(v, 0)), 1, dealt(v, 1));
                    destroyed_all(hurt, c, battle_losers(hurt, a, t))
                },
                None => c == v,
            }
            &&& Duel::window_opened(
                queued(c, Processor::Attack { step: 3, attacker, player }),
                w,
                EVENT_POST_DAMAGE_CALCULATION,
                opened,
            )
        }
}

/// The attack task at `step` ran from `v` to `w` (see [`Duel::run_attack`]).
pub open spec fn attack_ran(v: DuelView, w: DuelView, step: u16, attacker: CardId, player: usize, r: Option<Processor>) -> bool {
    let targets = v.field.cards_at(((player + 1) % 2) as usize, Zone::MonsterZone);
    if step == 0 && targets.len() == 0 {
        r is None && declared(v, w, attacker, None, player)
    } else if step == 0 {
        r == Some(Processor::Attack { step: 1, attacker, player }) && w == sent(v, MSG_SELECT_ATTACK_TARGET)
    } else if step == 1 {
        let idx = answer(v, 0, 0) as int;
        r is None && declared(
            v,
            w,
            attacker,
            if idx < targets.len() {
                Some(targets[idx])
            } else {
                None
            },
            player,
        )
    } else {
        &&& r is None
        &&& exists|a: DuelView|
            #![trigger chain_settled(v, a)]
            chain_settled(v, a) && {
                let b = DuelView { window_timing: None, ..a };
                if step == 2 {
                    battle_dealt(b, w, attacker, player)
                } else {
                    exists|f: DuelView|
                        #![trigger rules_fired(b, f, EVENT_BATTLE_ENDED)]
                        rules_fired(b, f, EVENT_BATTLE_ENDED) && w == queued(
                            f,
                            Processor::BattleCommand { step: 0, player },
                        )
                }
            }
    }
}

/// `w` is `v` with whatever was chained resolved.
pub open spec fn chain_settled(v: DuelView, w: DuelView) -> bool {
    if v.chain.len() > 0 {
        chain_resolved(v, w)
    } else {
        w == v
    }
}

/// The optional trigger's prompt at `step` ran from `v` to `w` (see
/// [`Duel::run_optional_trigger`]).
pub open spec fn optional_ran(v: DuelView, w: DuelView, step: u16, effect: usize, card: CardId, player: usize, event: EventSnapshot, r: Option<Processor>) -> bool {
    if step == 0 {
        r == Some(Processor::OptionalTrigger { step: 1, effect, card, player, event }) && w == sent(v, MSG_SELECT_YESNO)
    } else if answer(v, 0, 0) == 1 {
        r is None && stage_applied(
            with_ctx(v, EffectContext { activator: player, self_card: Some(card), event, ..v.ctx }),
            w,
            effect,
        )
    } else {
        r is None && w == v
    }
}

/// `player`'s chain-response window at `step` ran from `v` to `w` (see
/// [`Duel::run_chain_response`]).
pub open spec fn response_ran(v: DuelView, w: DuelView, step: usize, player: usize, r: Option<Processor>) -> bool {
    let other = (1 - player) as usize;
    if step == 0 {
        r == Some(Processor::ChainResponse { step: 1, player }) && w == sent(
            DuelView { responder: player, ..v },
            MSG_SELECT_CHAIN,
        )
    } else if v.responses.len() > 0 && v.responses[0] == CMD_PASS {
        let passed = DuelView { passes: v.passes.update(player as int, true), ..v };
        r is None && w == if v.passes[other as int] {
            passed
        } else {
            queued(passed, Processor::ChainResponse { step: 0, player: other })
        }
    } else if v.responses.len() > 0 && v.responses[0] == CMD_RESPONSE {
        &&& r is None
        &&& exists|a: DuelView, offered: Seq<(CardId, usize)>, b: DuelView|
            #![trigger options_offered(v, a, player, offered), chose(a, b, offered, pick_of(v), player)]
            {
                &&& options_offered(v, a, player, offered)
                &&& chose(a, b, offered, pick_of(v), player)
                &&& w == queued(b, Processor::ChainResponse { step: 0, player: other })
            }
    } else {
        r is None && w == v
    }
}

/// The response option the inbox picks: its second byte (-1 if none).
pub open spec fn pick_of(v: DuelView) -> int {
    if v.responses.len() > 1 {
        v.responses[1] as int
    } else {
        -1
    }
}

/// `w` is `v` after `player` activated the `pick`-th of `offered` (nothing
/// if out of range).
pub open spec fn chose(v: DuelView, w: DuelView, offered: Seq<(CardId, usize)>, pick: int, player: usize) -> bool {
    if 0 <= pick < offered.len() {
        exists|res: Result<DuelStatus, ScriptError>|
            #![trigger activated(v, w, offered[pick].0, offered[pick].1, player, res)]
            activated(v, w, offered[pick].0, offered[pick].1, player, res)
    } else {
        w == v
    }
}

/// One step of task `unit` ran from `v` to `w`, leaving `r` to resume
/// (`None` when it finished).
pub open spec fn task_ran(v: DuelView, w: DuelView, unit: Processor, r: Option<Processor>) -> bool {
    match unit {
        Processor::Startup { step } => startup_ran(v, w, step, r),
        Processor::Turn { step, player } => turn_ran(v, w, step, player, r),
        Processor::SelectCard { step } => select_ran(v, w, step, r),
        Processor::IdleCommand { step, player } => idle_ran(v, w, step, player, r),
        Processor::Activate { step, card, slot, player } => activate_ran(v, w, step, card, slot, player, r),
        Processor::BattleCommand { step, player } => battle_menu_ran(v, w, step, player, r),
        Processor::Attack { step, attacker, player } => attack_ran(v, w, step, attacker, player, r),
        Processor::OptionalTrigger { step, effect, card, player, event } => optional_ran(
            v,
            w,
            step,
            effect,
            card,
            player,
            event,
            r,
        ),
        Processor::ResolveChain { .. } => r is None && chain_resolved(v, w),
        Processor::ChainResponse { step, player } => response_ran(v, w, step, player, r),
    }
}

/// Whether `m` asks a player something.
pub open spec fn asks_player(m: DuelMessage) -> bool {
    ||| m == MSG_SELECT_CARD
    ||| m == MSG_SELECT_YESNO
    ||| m == MSG_SELECT_CHAIN
    ||| m == MSG_SELECT_IDLECMD
    ||| m == MSG_SELECT_BATTLECMD
    ||| m == MSG_SELECT_ATTACK_TARGET
}

/// A task that stops to wait for an answer has just asked its question:
/// the last message sent is a question to a player.
pub proof fn lemma_waiting_task_asked(v: DuelView, w: DuelView, unit: Processor, r: Option<Processor>)
    requires
        task_ran(v, w, unit, r),
        r matches Some(u) && u.spec_needs_answer(),
    ensures
        w.messages.len() > 0,
        asks_player(w.messages.last()),
{
}

/// Whether a task drives the turns (the opening task or a turn).
pub open spec fn turn_task(u: Processor) -> bool {
    u is Startup || u is Turn
}

/// No task of `s` drives the turns.
pub open spec fn turn_free(s: Seq<Processor>) -> bool {
    forall|i: int| 0 <= i < s.len() ==> !turn_task(#[trigger] s[i])
}

/// `w` keeps `v`'s turn record, turn limit and tasks, and adds only tasks
/// that do not drive the turns.
pub open spec fn turns_untouched(v: DuelView, w: DuelView) -> bool {
    &&& w.turn_hist == v.turn_hist
    &&& w.max_turns == v.max_turns
    &&& v.stack.len() <= w.stack.len()
    &&& w.stack.take(v.stack.len() as int) == v.stack
    &&& turn_free(w.stack.skip(v.stack.len() as int))
}

/// A task that does not drive the turns leaves them alone.
pub proof fn lemma_other_task_turns(v: DuelView, w: DuelView, unit: Processor, r: Option<Processor>)
    requires
        task_ran(v, w, unit, r),
        !turn_task(unit),
    ensures
        turns_untouched(v, w),
        r matches Some(u) ==> !turn_task(u),
{
    assert(v.stack.take(v.stack.len() as int) =~= v.stack);
    assert(v.stack.skip(v.stack.len() as int) =~= Seq::<Processor>::empty());
    match unit {
        Processor::SelectCard { step } => {
            lemma_same_stack_turns(v, w);
        },
        Processor::IdleCommand { step, player } => {
            lemma_idle_turns(v, w, step, player, r);
        },
        Processor::Activate { step, card, slot, player } => {
            lemma_activate_turns(v, w, step, card, slot, player, r);
        },
        Processor::BattleCommand { step, player } => {
            lemma_battle_menu_turns(v, w, step, player, r);
        },
        Processor::Attack { step, attacker, player } => {
            lemma_attack_turns(v, w, step, attacker, player, r);
        },
        Processor::OptionalTrigger { step, effect, card, player, event } => {
            lemma_same_stack_turns(v, w);
        },
        Processor::ResolveChain { .. } => {
            lemma_same_stack_turns(v, w);
        },
        Processor::ChainResponse { step, player } => {
            lemma_response_turns(v, w, step, player, r);
        },
        _ => {},
    }
}

/// Queuing a task that does not drive the turns.
proof fn lemma_queued_turns(v: DuelView, u: Processor)
    requires
        !turn_task(u),
    ensures
        turns_untouched(v, queued(v, u)),
{
    let w = queued(v, u);
    assert(w.stack.take(v.stack.len() as int) =~= v.stack);
    assert(w.stack.skip(v.stack.len() as int) =~= seq![u]);
}

/// Nothing changed the turns.
proof fn lemma_same_stack_turns(v: DuelView, w: DuelView)
    requires
        w.stack == v.stack,
        w.turn_hist == v.turn_hist,
        w.max_turns == v.max_turns,
    ensures
        turns_untouched(v, w),
{
    assert(w.stack.take(v.stack.len() as int) =~= v.stack);
    assert(w.stack.skip(v.stack.len() as int) =~= Seq::<Processor>::empty());
}

/// Chaining: turns untouched, then untouched again.
proof fn lemma_turns_trans(a: DuelView, b: DuelView, c: DuelView)
    requires
        turns_untouched(a, b),
        turns_untouched(b, c),
    ensures
        turns_untouched(a, c),
{
    assert(c.stack.take(a.stack.len() as int) =~= b.stack.take(a.stack.len() as int));
    let s = c.stack.skip(a.stack.len() as int);
    assert forall|i: int| 0 <= i < s.len() implies !turn_task(#[trigger] s[i]) by {
        if a.stack.len() + i < b.stack.len() {
            assert(s[i] == b.stack[a.stack.len() + i]);
            assert(b.stack.skip(a.stack.len() as int)[i] == b.stack[a.stack.len() + i]);
        } else {
            assert(c.stack.skip(b.stack.len() as int)[a.stack.len() + i - b.stack.len()] == s[i]);
        }
    }
}

/// The tasks queued after a menu activation do not drive the turns.
proof fn lemma_after_activation_turns(a: DuelView, w: DuelView, player: usize)
    requires
        w == (DuelView { stack: a.stack + after_activation(player), ..a }),
    ensures
        turns_untouched(a, w),
{
    assert(w.stack.take(a.stack.len() as int) =~= a.stack);
    assert(w.stack.skip(a.stack.len() as int) =~= after_activation(player));
}

/// Destroying monsters by battle leaves the turns alone.
pub(crate) proof fn lemma_destroyed_all_turns(v: DuelView, w: DuelView, cards: Seq<CardId>)
    requires
        destroyed_all(v, w, cards),
    ensures
        w.stack == v.stack,
        w.turn_hist == v.turn_hist,
        w.max_turns == v.max_turns,
{
    if cards.len() > 1 {
        let mid = choose|mid: DuelView|
            Duel::destroy_step(v, mid, cards[0], crate::reason::REASON_BATTLE) && Duel::destroy_step(
                mid,
                w,
                cards[1],
                crate::reason::REASON_BATTLE,
            );
    }
}

/// Opening a response window queues only a response task.
proof fn lemma_window_turns(v: DuelView, w: DuelView, timing: u32, opened: bool)
    requires
        Duel::window_opened(v, w, timing, opened),
    ensures
        turns_untouched(v, w),
{
    if opened {
        assert(w.stack.take(v.stack.len() as int) =~= v.stack);
        assert(w.stack.skip(v.stack.len() as int) =~= seq![w.stack.last()]);
    } else {
        lemma_same_stack_turns(v, w);
    }
}

/// Declaring an attack leaves the turns alone.
proof fn lemma_declared_turns(v: DuelView, w: DuelView, attacker: CardId, target: Option<CardId>, player: usize)
    requires
        declared(v, w, attacker, target, player),
    ensures
        turns_untouched(v, w),
{
    let d = DuelView { last_attack: Some((attacker, target)), attacked: v.attacked.insert(attacker.key), ..v };
    let opened = choose|opened: bool|
        #![trigger Duel::window_opened(
            queued(d, Processor::Attack { step: 2, attacker, player }),
            w,
            EVENT_PRE_DAMAGE_CALCULATION,
            opened,
        )]
        Duel::window_opened(
            queued(d, Processor::Attack { step: 2, attacker, player }),
            w,
            EVENT_PRE_DAMAGE_CALCULATION,
            opened,
        );
    let q = queued(d, Processor::Attack { step: 2, attacker, player });
    lemma_same_stack_turns(v, d);
    lemma_queued_turns(d, Processor::Attack { step: 2, attacker, player });
    lemma_window_turns(q, w, EVENT_PRE_DAMAGE_CALCULATION, opened);
    lemma_turns_trans(d, q, w);
    lemma_turns_trans(v, d, w);
}

proof fn lemma_idle_turns(v: DuelView, w: DuelView, step: u16, player: usize, r: Option<Processor>)
    requires
        idle_ran(v, w, step, player, r),
    ensures
        turns_untouched(v, w),
{
    let command = answer(v, 0, CMD_NEXT_PHASE);
    let index = answer(v, 1, 0) as int;
    let hand = v.field.hand(player as int);
    if step == 0 || command == CMD_NEXT_PHASE {
        lemma_same_stack_turns(v, w);
    } else if command == CMD_SUMMON {
        if index < hand.len() && v.normal_summons[player as int] < 1 {
            let s = choose|s: DuelView| #![trigger summoned(v, s, hand[index])] summoned(v, s, hand[index]) && w == sent(
                DuelView { normal_summons: s.normal_summons.update(player as int, 1), ..s },
                MSG_SELECT_IDLECMD,
            );
            lemma_same_stack_turns(v, w);
        } else {
            lemma_same_stack_turns(v, w);
        }
    } else if command == CMD_SET_SPELL_TRAP {
        if index < hand.len() {
            let s = choose|s: DuelView|
                #![trigger send_step(v, s, hand[index], Zone::SpellTrapZone)]
                send_step(v, s, hand[index], Zone::SpellTrapZone) && w == sent(s, MSG_SELECT_IDLECMD);
            lemma_same_stack_turns(v, w);
        } else {
            lemma_same_stack_turns(v, w);
        }
    } else if command == CMD_ACTIVATE {
        let offered = choose|offered: Seq<(CardId, usize)>|
            #![trigger picked_from(offered, main_offers(v, player))]
            picked_from(offered, main_offers(v, player)) && offers_approved(
                v,
                with_stage(v, w),
                main_offers(v, player),
                player,
                true,
                offered,
            ) && w == if index < offered.len() {
                queued(
                    with_stage(v, w),
                    Processor::Activate { step: 0, card: offered[index].0, slot: offered[index].1, player },
                )
            } else {
                with_stage(v, w)
            };
        lemma_same_stack_turns(v, with_stage(v, w));
        if index < offered.len() {
            lemma_queued_turns(
                with_stage(v, w),
                Processor::Activate { step: 0, card: offered[index].0, slot: offered[index].1, player },
            );
            lemma_turns_trans(v, with_stage(v, w), w);
        }
    } else {
        lemma_same_stack_turns(v, w);
    }
}

proof fn lemma_activate_turns(v: DuelView, w: DuelView, step: u16, card: CardId, slot: usize, player: usize, r: Option<Processor>)
    requires
        activate_ran(v, w, step, card, slot, player, r),
    ensures
        turns_untouched(v, w),
{
    if step == 0 {
        let (a, res) = choose|a: DuelView, res: Result<DuelStatus, ScriptError>|
            #![trigger activated(v, a, card, slot, player, res)]
            activated(v, a, card, slot, player, res) && if res == Ok::<DuelStatus, ScriptError>(
                DuelStatus::Awaiting,
            ) {
                r == Some(Processor::Activate { step: 1, card, slot, player }) && w == sent(a, MSG_SELECT_CARD)
            } else {
                r is None && w == (DuelView { stack: a.stack + after_activation(player), ..a })
            };
        lemma_same_stack_turns(v, a);
        if res == Ok::<DuelStatus, ScriptError>(DuelStatus::Awaiting) {
            lemma_same_stack_turns(v, w);
        } else {
            lemma_after_activation_turns(a, w, player);
            lemma_turns_trans(v, a, w);
        }
    } else {
        let (a, b) = choose|a: DuelView, b: DuelView|
            #![trigger resumed_or_not(a, b)]
            {
                &&& a == (DuelView { ctx: EffectContext { targets: a.ctx.targets, ..v.ctx }, ..v })
                &&& a.ctx.targets@ == picks(v)
                &&& resumed_or_not(a, b)
                &&& w == (DuelView { stack: b.stack + after_activation(player), ..b })
            };
        if a.pending is Some {
            let res = choose|res: Result<DuelStatus, ScriptError>| #![trigger resumed(a, b, res)] resumed(a, b, res);
            assert(b.stack == a.stack && b.turn_hist == a.turn_hist && b.max_turns == a.max_turns);
        }
        lemma_same_stack_turns(v, b);
        lemma_after_activation_turns(b, w, player);
        lemma_turns_trans(v, b, w);
    }
}

proof fn lemma_battle_menu_turns(v: DuelView, w: DuelView, step: u16, player: usize, r: Option<Processor>)
    requires
        battle_menu_ran(v, w, step, player, r),
    ensures
        turns_untouched(v, w),
{
    let command = answer(v, 0, CMD_NEXT_PHASE);
    let index = answer(v, 1, 0) as int;
    let ready = v.field.cards_at(player, Zone::MonsterZone).filter(|c: CardId| Duel::can_attack(v, c));
    if step != 0 && command == CMD_ATTACK && index < ready.len() {
        lemma_queued_turns(v, Processor::Attack { step: 0, attacker: ready[index], player });
    } else {
        lemma_same_stack_turns(v, w);
    }
}

proof fn lemma_attack_turns(v: DuelView, w: DuelView, step: u16, attacker: CardId, player: usize, r: Option<Processor>)
    requires
        attack_ran(v, w, step, attacker, player, r),
    ensures
        turns_untouched(v, w),
{
    let targets = v.field.cards_at(((player + 1) % 2) as usize, Zone::MonsterZone);
    if step == 0 && targets.len() == 0 {
        lemma_declared_turns(v, w, attacker, None, player);
    } else if step == 0 {
        lemma_same_stack_turns(v, w);
    } else if step == 1 {
        let idx = answer(v, 0, 0) as int;
        lemma_declared_turns(v, w, attacker, if idx < targets.len() { Some(targets[idx]) } else { None }, player);
    } else {
        let a = choose|a: DuelView|
            #![trigger chain_settled(v, a)]
            chain_settled(v, a) && {
                let b = DuelView { window_timing: None, ..a };
                if step == 2 {
                    battle_dealt(b, w, attacker, player)
                } else {
                    exists|f: DuelView|
                        #![trigger rules_fired(b, f, EVENT_BATTLE_ENDED)]
                        rules_fired(b, f, EVENT_BATTLE_ENDED) && w == queued(
                            f,
                            Processor::BattleCommand { step: 0, player },
                        )
                }
            };
        let b = DuelView { window_timing: None, ..a };
        lemma_same_stack_turns(v, b);
        if step == 2 {
            let (c, opened) = choose|c: DuelView, opened: bool|
                #![trigger Duel::window_opened(queued(c, Processor::Attack { step: 3, attacker, player }), w, EVENT_POST_DAMAGE_CALCULATION, opened)]
                {
                    &&& match b.last_attack {
                        Some((x, t)) => {
                            let hurt = after_lp_loss(after_lp_loss(b, 0, dealt(b, 0)), 1, dealt(b, 1));
                            destroyed_all(hurt, c, battle_losers(hurt, x, t))
                        },
                        None => c == b,
                    }
                    &&& Duel::window_opened(
                        queued(c, Processor::Attack { step: 3, attacker, player }),
                        w,
                        EVENT_POST_DAMAGE_CALCULATION,
                        opened,
                    )
                };
            if let Some((x, t)) = b.last_attack {
                let hurt = after_lp_loss(after_lp_loss(b, 0, dealt(b, 0)), 1, dealt(b, 1));
                lemma_destroyed_all_turns(hurt, c, battle_losers(hurt, x, t));
                lemma_same_stack_turns(b, c);
            }
            let q = queued(c, Processor::Attack { step: 3, attacker, player });
            lemma_queued_turns(c, Processor::Attack { step: 3, attacker, player });
            lemma_window_turns(q, w, EVENT_POST_DAMAGE_CALCULATION, opened);
            lemma_turns_trans(c, q, w);
            lemma_turns_trans(b, c, w);
            lemma_turns_trans(v, b, w);
        } else {
            let f = choose|f: DuelView|
                #![trigger rules_fired(b, f, EVENT_BATTLE_ENDED)]
                rules_fired(b, f, EVENT_BATTLE_ENDED) && w == queued(f, Processor::BattleCommand { step: 0, player });
            lemma_same_stack_turns(b, f);
            lemma_queued_turns(f, Processor::BattleCommand { step: 0, player });
            lemma_turns_trans(b, f, w);
            lemma_turns_trans(v, b, w);
        }
    }
}

proof fn lemma_response_turns(v: DuelView, w: DuelView, step: usize, player: usize, r: Option<Processor>)
    requires
        response_ran(v, w, step, player, r),
    ensures
        turns_untouched(v, w),
{
    let other = (1 - player) as usize;
    if step == 0 {
        lemma_same_stack_turns(v, w);
    } else if v.responses.len() > 0 && v.responses[0] == CMD_PASS {
        let passed = DuelView { passes: v.passes.update(player as int, true), ..v };
        lemma_same_stack_turns(v, passed);
        if !v.passes[other as int] {
            lemma_queued_turns(passed, Processor::ChainResponse { step: 0, player: other });
            lemma_turns_trans(v, passed, w);
        }
    } else if v.responses.len() > 0 && v.responses[0] == CMD_RESPONSE {
        let (a, offered, b) = choose|a: DuelView, offered: Seq<(CardId, usize)>, b: DuelView|
            #![trigger options_offered(v, a, player, offered), chose(a, b, offered, pick_of(v), player)]
            {
                &&& options_offered(v, a, player, offered)
                &&& chose(a, b, offered, pick_of(v), player)
                &&& w == queued(b, Processor::ChainResponse { step: 0, player: other })
            };
        if 0 <= pick_of(v) < offered.len() {
            let res = choose|res: Result<DuelStatus, ScriptError>|
                #![trigger activated(a, b, offered[pick_of(v)].0, offered[pick_of(v)].1, player, res)]
                activated(a, b, offered[pick_of(v)].0, offered[pick_of(v)].1, player, res);
        }
        lemma_same_stack_turns(v, b);
        lemma_queued_turns(b, Processor::ChainResponse { step: 0, player: other });
        lemma_turns_trans(v, b, w);
    } else {
        lemma_same_stack_turns(v, w);
    }
}

/// Processing events leaves the turns alone.
proof fn lemma_events_turns(v: DuelView, w: DuelView)
    requires
        events_done(v, w),
    ensures
        turns_untouched(v, w),
{
    let (fired, prompts, links) = choose|
        fired: Seq<(usize, CardId, usize, EventSnapshot)>,
        prompts: Seq<Processor>,
        links: Seq<crate::chain::ChainLink>,
    |
        #![trigger super::scripting::events_processed(v, w, fired, prompts, links)]
        super::scripting::events_processed(v, w, fired, prompts, links);
    let tail = w.stack.skip(v.stack.len() as int);
    assert(w.stack.take(v.stack.len() as int) =~= v.stack);
    assert forall|i: int| 0 <= i < tail.len() implies !turn_task(#[trigger] tail[i]) by {
        assert(tail[i] == w.stack[v.stack.len() + i]);
        if i < prompts.len() {
            assert(w.stack[v.stack.len() + i] == prompts[i]);
            assert(super::scripting::optional_prompt(v, prompts[i]));
        }
    }
}

/// How many tasks of `s` drive the turns.
pub open spec fn turn_count(s: Seq<Processor>) -> nat {
    s.filter(|u: Processor| turn_task(u)).len()
}

/// A task driving the turns fits the turn record of `v`: the opening task
/// comes before any turn, with at least one turn allowed; a turn not yet
/// begun belongs to the player whose turn is next, while the limit allows
/// another turn; a turn begun belongs to the player who took the last one.
pub open spec fn turn_fits(v: DuelView, u: Processor) -> bool {
    match u {
        Processor::Startup { .. } => v.turn_hist.len() == 0 && v.max_turns > 0,
        Processor::Turn { step, player } => step <= 6 && if step == 0 {
            player == v.turn_hist.len() % 2 && v.turn_hist.len() < v.max_turns
        } else {
            v.turn_hist.len() > 0 && player == (v.turn_hist.len() - 1) % 2
        },
        _ => true,
    }
}

/// The turns run in order: player 0 took the first turn and play
/// alternated; no more turns ran than the limit allows; at most one task
/// drives the turns and it fits the record; and once turns have begun, a
/// duel with no turn left to run has run exactly the allowed number.
pub open spec fn turns_in_order(v: DuelView) -> bool {
    &&& forall|i: int| 0 <= i < v.turn_hist.len() ==> #[trigger] v.turn_hist[i] == i % 2
    &&& v.turn_hist.len() <= v.max_turns
    &&& turn_count(v.stack) <= 1
    &&& forall|i: int| 0 <= i < v.stack.len() ==> turn_fits(v, #[trigger] v.stack[i])
    &&& v.turn_hist.len() > 0 && turn_count(v.stack) == 0 ==> v.turn_hist.len() == v.max_turns
}

/// Counting turn tasks over a concatenation.
proof fn lemma_turn_count_add(a: Seq<Processor>, b: Seq<Processor>)
    ensures
        turn_count(a + b) == turn_count(a) + turn_count(b),
{
    Seq::filter_distributes_over_add(a, b, |u: Processor| turn_task(u));
}

/// A sequence with no turn task counts none.
proof fn lemma_turn_free_count(s: Seq<Processor>)
    ensures
        turn_free(s) <==> turn_count(s) == 0,
    decreases s.len(),
{
    reveal_with_fuel(Seq::filter, 1);
    if s.len() > 0 {
        lemma_turn_free_count(s.drop_last());
        if turn_free(s) {
            assert(turn_free(s.drop_last())) by {
                assert forall|i: int| 0 <= i < s.drop_last().len() implies !turn_task(#[trigger] s.drop_last()[i]) by {
                    assert(s.drop_last()[i] == s[i]);
                }
            }
            assert(!turn_task(s[s.len() - 1]));
        }
        if turn_count(s) == 0 {
            assert(!turn_task(s.last()));
            assert(turn_count(s.drop_last()) == 0);
            assert forall|i: int| 0 <= i < s.len() implies !turn_task(#[trigger] s[i]) by {
                if i < s.len() - 1 {
                    assert(s.drop_last()[i] == s[i]);
                }
            }
        }
    } else {
        assert(s.filter(|u: Processor| turn_task(u)) =~= Seq::<Processor>::empty());
    }
}

/// Counting turn tasks when one task is put back into the stack.
proof fn lemma_turn_count_insert(s: Seq<Processor>, k: int, u: Processor)
    requires
        0 <= k <= s.len(),
    ensures
        turn_count(s.insert(k, u)) == turn_count(s) + if turn_task(u) { 1nat } else { 0nat },
{
    assert(s.insert(k, u) =~= s.take(k) + seq![u] + s.skip(k));
    assert(s =~= s.take(k) + s.skip(k));
    lemma_turn_count_add(s.take(k) + seq![u], s.skip(k));
    lemma_turn_count_add(s.take(k), seq![u]);
    lemma_turn_count_add(s.take(k), s.skip(k));
    reveal_with_fuel(Seq::filter, 2);
    assert(seq![u].drop_last() =~= Seq::<Processor>::empty());
}

/// Every task of `a + b` is one of `a`'s or one of `b`'s.
proof fn lemma_fits_add(w: DuelView, a: Seq<Processor>, b: Seq<Processor>)
    requires
        forall|i: int| 0 <= i < a.len() ==> turn_fits(w, #[trigger] a[i]),
        forall|i: int| 0 <= i < b.len() ==> turn_fits(w, #[trigger] b[i]),
    ensures
        forall|i: int| 0 <= i < (a + b).len() ==> turn_fits(w, #[trigger] (a + b)[i]),
{
    assert forall|i: int| 0 <= i < (a + b).len() implies turn_fits(w, #[trigger] (a + b)[i]) by {
        if i < a.len() {
            assert((a + b)[i] == a[i]);
        } else {
            assert((a + b)[i] == b[i - a.len()]);
        }
    }
}

/// Putting `u` back into a stack whose tasks all fit.
proof fn lemma_fits_insert(w: DuelView, a: Seq<Processor>, k: int, u: Processor)
    requires
        0 <= k <= a.len(),
        forall|i: int| 0 <= i < a.len() ==> turn_fits(w, #[trigger] a[i]),
        turn_fits(w, u),
    ensures
        forall|i: int| 0 <= i < a.insert(k, u).len() ==> turn_fits(w, #[trigger] a.insert(k, u)[i]),
{
    assert forall|i: int| 0 <= i < a.insert(k, u).len() implies turn_fits(w, #[trigger] a.insert(k, u)[i]) by {
        if i < k {
            assert(a.insert(k, u)[i] == a[i]);
        } else if i > k {
            assert(a.insert(k, u)[i] == a[i - 1]);
        }
    }
}

/// Tasks that do not drive the turns fit any record.
proof fn lemma_free_fits(w: DuelView, a: Seq<Processor>)
    requires
        turn_free(a),
    ensures
        forall|i: int| 0 <= i < a.len() ==> turn_fits(w, #[trigger] a[i]),
{
    assert forall|i: int| 0 <= i < a.len() implies turn_fits(w, #[trigger] a[i]) by {
        assert(!turn_task(a[i]));
    }
}

/// The rest of the step after the task ran (see [`stepped`]): events
/// leave the turns alone, and the unfinished task goes back at its place.
proof fn lemma_finish_turns(t: DuelView, ran: DuelView, ev: DuelView, w: DuelView, r: Option<Processor>)
    requires
        events_done(ran, ev),
        t.stack.len() <= ran.stack.len(),
        ran.stack.take(t.stack.len() as int) == t.stack,
        w == match r {
            Some(u) => DuelView { stack: ev.stack.insert(t.stack.len() as int, u), ..ev },
            None => ev,
        },
        forall|i: int| 0 <= i < ran.stack.len() ==> turn_fits(w, #[trigger] ran.stack[i]),
        r matches Some(u) ==> turn_fits(w, u),
    ensures
        w.turn_hist == ran.turn_hist,
        w.max_turns == ran.max_turns,
        turn_count(w.stack) == turn_count(ran.stack) + match r {
            Some(u) => if turn_task(u) { 1nat } else { 0nat },
            None => 0nat,
        },
        forall|i: int| 0 <= i < w.stack.len() ==> turn_fits(w, #[trigger] w.stack[i]),
{
    lemma_events_turns(ran, ev);
    let z = ev.stack.skip(ran.stack.len() as int);
    assert(ev.stack =~= ran.stack + z);
    lemma_turn_count_add(ran.stack, z);
    lemma_turn_free_count(z);
    lemma_free_fits(w, z);
    lemma_fits_add(w, ran.stack, z);
    if let Some(u) = r {
        lemma_turn_count_insert(ev.stack, t.stack.len() as int, u);
        lemma_fits_insert(w, ev.stack, t.stack.len() as int, u);
    }
}

/// The turns have begun: a task driving them is queued, or a turn ran.
pub open spec fn turns_begun(v: DuelView) -> bool {
    turn_count(v.stack) == 1 || v.turn_hist.len() > 0
}

/// What one driver step is made of (see [`stepped`]).
pub open spec fn step_parts(v: DuelView, w: DuelView, ran: DuelView, r: Option<Processor>, ev: DuelView) -> bool {
    &&& v.stack.len() > 0
    &&& task_ran(top_taken(v), ran, v.stack.last(), r)
    &&& events_done(ran, ev)
    &&& w == match r {
        Some(u) => DuelView { stack: ev.stack.insert(v.stack.len() - 1, u), ..ev },
        None => ev,
    }
}

/// Facts about the top task and the rest of the stack of `v`.
proof fn lemma_top_split(v: DuelView)
    requires
        turns_in_order(v),
        v.stack.len() > 0,
    ensures
        v.stack == top_taken(v).stack + seq![v.stack.last()],
        turn_count(v.stack) == turn_count(top_taken(v).stack) + if turn_task(v.stack.last()) { 1nat } else { 0nat },
        turn_fits(v, v.stack.last()),
        forall|i: int| 0 <= i < top_taken(v).stack.len() ==> turn_fits(v, #[trigger] top_taken(v).stack[i]),
{
    let t = top_taken(v);
    let top = v.stack.last();
    assert(v.stack =~= t.stack + seq![top]);
    lemma_turn_count_add(t.stack, seq![top]);
    reveal_with_fuel(Seq::filter, 2);
    assert(seq![top].drop_last() =~= Seq::<Processor>::empty());
    assert(v.stack[v.stack.len() - 1] == top);
    assert forall|i: int| 0 <= i < t.stack.len() implies turn_fits(v, #[trigger] t.stack[i]) by {
        assert(v.stack[i] == t.stack[i]);
    }
}

/// A step of a task that does not drive the turns keeps them in order.
#[verifier::rlimit(40)]
proof fn lemma_step_other(v: DuelView, w: DuelView, ran: DuelView, r: Option<Processor>, ev: DuelView)
    requires
        turns_in_order(v),
        step_parts(v, w, ran, r, ev),
        !turn_task(v.stack.last()),
    ensures
        turns_in_order(w),
        turns_begun(v) ==> turns_begun(w),
{
    let t = top_taken(v);
    lemma_top_split(v);
    lemma_other_task_turns(t, ran, v.stack.last(), r);
    let x = ran.stack.skip(t.stack.len() as int);
    assert(ran.stack =~= t.stack + x);
    lemma_turn_count_add(t.stack, x);
    lemma_turn_free_count(x);
    lemma_free_fits(w, x);
    assert forall|i: int| 0 <= i < t.stack.len() implies turn_fits(w, #[trigger] t.stack[i]) by {
        assert(turn_fits(v, t.stack[i]));
    }
    lemma_fits_add(w, t.stack, x);
    lemma_finish_turns(t, ran, ev, w, r);
}

/// The opening task's step keeps the turns in order.
#[verifier::rlimit(40)]
proof fn lemma_step_startup(v: DuelView, w: DuelView, ran: DuelView, r: Option<Processor>, ev: DuelView, step: u16)
    requires
        turns_in_order(v),
        step_parts(v, w, ran, r, ev),
        v.stack.last() == (Processor::Startup { step }),
    ensures
        turns_in_order(w),
        turns_begun(v) ==> turns_begun(w),
{
    let t = top_taken(v);
    lemma_top_split(v);
    lemma_turn_free_count(t.stack);
    lemma_free_fits(w, t.stack);
    if step == 0 {
        assert(ran.stack == t.stack);
        assert(ran.stack.take(t.stack.len() as int) =~= t.stack);
    } else {
        let u0 = Processor::Turn { step: 0, player: PLAYER_0 };
        assert(ran.stack =~= t.stack + seq![u0]);
        assert(ran.stack.take(t.stack.len() as int) =~= t.stack);
        lemma_turn_count_add(t.stack, seq![u0]);
        reveal_with_fuel(Seq::filter, 2);
        assert(seq![u0].drop_last() =~= Seq::<Processor>::empty());
        lemma_fits_add(w, t.stack, seq![u0]);
    }
    lemma_finish_turns(t, ran, ev, w, r);
}

/// A turn's step keeps the turns in order.
#[verifier::rlimit(60)]
proof fn lemma_step_turn(
    v: DuelView,
    w: DuelView,
    ran: DuelView,
    r: Option<Processor>,
    ev: DuelView,
    step: u16,
    player: usize,
)
    requires
        turns_in_order(v),
        step_parts(v, w, ran, r, ev),
        v.stack.last() == (Processor::Turn { step, player }),
    ensures
        turns_in_order(w),
        turns_begun(v) ==> turns_begun(w),
{
    let t = top_taken(v);
    lemma_top_split(v);
    lemma_turn_free_count(t.stack);
    lemma_free_fits(w, t.stack);
    let o = if step == 0 {
        turn_opened(t, player)
    } else {
        t
    };
    let m = sent(o, phase_msg(step as int));
    assert(m.stack == t.stack);
    if step == 0 {
        assert forall|i: int| 0 <= i < m.turn_hist.len() implies #[trigger] m.turn_hist[i] == i % 2 by {
            if i < t.turn_hist.len() {
                assert(m.turn_hist[i] == t.turn_hist[i]);
            }
        }
    }
    reveal_with_fuel(Seq::filter, 2);
    if step == 3 || step == 5 || step == 4 {
        let q = if step == 4 {
            Processor::BattleCommand { step: 0, player }
        } else {
            Processor::IdleCommand { step: 0, player }
        };
        assert(ran.stack =~= t.stack + seq![q]);
        lemma_turn_count_add(t.stack, seq![q]);
        assert(seq![q].drop_last() =~= Seq::<Processor>::empty());
        lemma_free_fits(w, seq![q]);
        lemma_fits_add(w, t.stack, seq![q]);
        assert(ran.stack.take(t.stack.len() as int) =~= t.stack);
    } else if step == 6 {
        if m.turn_hist.len() < m.max_turns {
            let q = Processor::Turn { step: 0, player: (1 - player) as usize };
            assert(ran.stack =~= t.stack + seq![q]);
            lemma_turn_count_add(t.stack, seq![q]);
            assert(seq![q].drop_last() =~= Seq::<Processor>::empty());
            lemma_fits_add(w, t.stack, seq![q]);
            assert(ran.stack.take(t.stack.len() as int) =~= t.stack);
        } else {
            assert(ran.stack.take(t.stack.len() as int) =~= t.stack);
        }
    } else if step == 1 && m.turn_hist.len() > 1 {
        let drawn = choose|drawn: Seq<CardId>|
            #![trigger drew_cards(m, ran, player, 1, drawn)]
            drew_cards(m, ran, player, 1, drawn);
        assert(ran.stack == m.stack && ran.turn_hist == m.turn_hist && ran.max_turns == m.max_turns);
        assert(ran.stack.take(t.stack.len() as int) =~= t.stack);
    } else {
        assert(ran.stack.take(t.stack.len() as int) =~= t.stack);
    }
    lemma_finish_turns(t, ran, ev, w, r);
}

/// One driver step keeps the turns in order (see [`turns_in_order`]).
pub proof fn lemma_step_keeps_turns(v: DuelView, w: DuelView, s: DuelStatus)
    requires
        turns_in_order(v),
        stepped(v, w, s),
    ensures
        turns_in_order(w),
        turns_begun(v) ==> turns_begun(w),
{
    let (ran, r, ev) = choose|ran: DuelView, r: Option<Processor>, ev: DuelView|
        #![trigger task_ran(top_taken(v), ran, v.stack.last(), r), events_done(ran, ev)]
        {
            &&& v.result is None
            &&& v.stack.len() > 0
            &&& task_ran(top_taken(v), ran, v.stack.last(), r)
            &&& events_done(ran, ev)
            &&& w == match r {
                Some(u) => DuelView { stack: ev.stack.insert(v.stack.len() - 1, u), ..ev },
                None => ev,
            }
            &&& s == match r {
                Some(u) => if u.spec_needs_answer() {
                    DuelStatus::Awaiting
                } else {
                    DuelStatus::Continue
                },
                None => DuelStatus::Continue,
            }
        };
    assert(step_parts(v, w, ran, r, ev));
    match v.stack.last() {
        Processor::Startup { step } => lemma_step_startup(v, w, ran, r, ev, step),
        Processor::Turn { step, player } => lemma_step_turn(v, w, ran, r, ev, step, player),
        _ => lemma_step_other(v, w, ran, r, ev),
    }
}

/// Driver steps that ran on keep the turns in order.
proof fn lemma_steps_keep_turns(v: DuelView, w: DuelView, n: nat)
    requires
        turns_in_order(v),
        steps(v, w, n),
    ensures
        turns_in_order(w),
        turns_begun(v) ==> turns_begun(w),
    decreases n,
{
    if n > 0 {
        let mid = choose|mid: DuelView|
            #![trigger stepped(mid, w, DuelStatus::Continue)]
            steps(v, mid, (n - 1) as nat) && stepped(mid, w, DuelStatus::Continue);
        lemma_steps_keep_turns(v, mid, (n - 1) as nat);
        lemma_step_keeps_turns(mid, w, DuelStatus::Continue);
    }
}

/// A run of the driver keeps the turns in order: player 0 took the first
/// turn, play alternated, no more turns ran than the limit, and a run that
/// ends with the duel undecided and the turns begun has run exactly the
/// allowed number of turns.
pub proof fn lemma_run_keeps_turns(v: DuelView, w: DuelView, s: DuelStatus)
    requires
        turns_in_order(v),
        ran(v, w, s),
    ensures
        turns_in_order(w),
        forall|i: int| 0 <= i < w.turn_hist.len() ==> #[trigger] w.turn_hist[i] == i % 2,
        w.turn_hist.len() <= w.max_turns,
        turns_begun(v) ==> turns_begun(w),
        turns_begun(v) && s == DuelStatus::End && w.result is None ==> w.turn_hist.len() == w.max_turns,
{
    let (n, mid) = choose|n: nat, mid: DuelView|
        #![trigger steps(v, mid, n)]
        steps(v, mid, n) && match s {
            DuelStatus::End => w == mid && (mid.result is Some || mid.stack.len() == 0),
            DuelStatus::Awaiting => stepped(mid, w, DuelStatus::Awaiting),
            DuelStatus::Continue => false,
        };
    lemma_steps_keep_turns(v, mid, n);
    match s {
        DuelStatus::End => {
            if w.result is None {
                assert(w.stack =~= Seq::<Processor>::empty());
                assert(w.stack.filter(|u: Processor| turn_task(u)) =~= Seq::<Processor>::empty());
            }
        },
        DuelStatus::Awaiting => lemma_step_keeps_turns(mid, w, DuelStatus::Awaiting),
        DuelStatus::Continue => {},
    }
}

/// Whether the turns are in order, and whether they have begun, reads only
/// the turn record, the turn limit and the task stack: answering a question
/// between runs changes neither.
pub proof fn lemma_turns_frame(v: DuelView, w: DuelView)
    requires
        w.turn_hist == v.turn_hist,
        w.max_turns == v.max_turns,
        w.stack == v.stack,
    ensures
        turns_in_order(v) == turns_in_order(w),
        turns_begun(v) == turns_begun(w),
{
    assert forall|u: Processor| turn_fits(v, u) == turn_fits(w, u) by {}
}

/// A duel about to open, with no turn run yet, a turn allowed, and only
/// the opening task driving the turns, has its turns in order.
pub proof fn lemma_opening_in_order(v: DuelView)
    requires
        v.turn_hist.len() == 0,
        v.max_turns > 0,
        v.stack.len() > 0,
        v.stack.last() is Startup,
        turn_free(v.stack.drop_last()),
    ensures
        turns_in_order(v),
        turns_begun(v),
{
    let t = v.stack.drop_last();
    assert(v.stack =~= t + seq![v.stack.last()]);
    lemma_turn_count_add(t, seq![v.stack.last()]);
    lemma_turn_free_count(t);
    reveal_with_fuel(Seq::filter, 2);
    assert(seq![v.stack.last()].drop_last() =~= Seq::<Processor>::empty());
    assert forall|i: int| 0 <= i < v.stack.len() implies turn_fits(v, #[trigger] v.stack[i]) by {
        if i < t.len() {
            assert(v.stack[i] == t[i]);
            assert(!turn_task(t[i]));
        }
    }
}

/// The outbox after one step of task `unit` from `v` that left `r` to
/// resume: the question or phase message the step sends, if any.
pub open spec fn task_messages(v: DuelView, unit: Processor, r: Option<Processor>) -> Seq<DuelMessage> {
    let command = answer(v, 0, CMD_NEXT_PHASE);
    let index = answer(v, 1, 0) as int;
    match unit {
        Processor::Startup { step } => if step == 0 {
            v.messages.push(MSG_STARTUP)
        } else {
            v.messages
        },
        Processor::Turn { step, player } => v.messages.push(phase_msg(step as int)),
        Processor::SelectCard { step } => if step == 0 {
            v.messages.push(MSG_SELECT_CARD)
        } else {
            v.messages
        },
        Processor::IdleCommand { step, player } => if step == 0 || (command != CMD_NEXT_PHASE
            && command != CMD_ACTIVATE) {
            v.messages.push(MSG_SELECT_IDLECMD)
        } else {
            v.messages
        },
        Processor::Activate { .. } => if r is Some {
            v.messages.push(MSG_SELECT_CARD)
        } else {
            v.messages
        },
        Processor::BattleCommand { step, player } => {
            let ready = v.field.cards_at(player, Zone::MonsterZone).filter(|c: CardId| Duel::can_attack(v, c));
            if step == 0 || !(command == CMD_NEXT_PHASE || (command == CMD_ATTACK && index < ready.len())) {
                v.messages.push(MSG_SELECT_BATTLECMD)
            } else {
                v.messages
            }
        },
        Processor::Attack { step, attacker, player } => {
            let targets = v.field.cards_at(((player + 1) % 2) as usize, Zone::MonsterZone);
            if step == 0 && targets.len() > 0 {
                v.messages.push(MSG_SELECT_ATTACK_TARGET)
            } else {
                v.messages
            }
        },
        Processor::OptionalTrigger { step, .. } => if step == 0 {
            v.messages.push(MSG_SELECT_YESNO)
        } else {
            v.messages
        },
        Processor::ResolveChain { .. } => v.messages,
        Processor::ChainResponse { step, .. } => if step == 0 {
            v.messages.push(MSG_SELECT_CHAIN)
        } else {
            v.messages
        },
    }
}

/// The outbox after one step of a task is fixed by the state and what the
/// task left to resume.
pub proof fn lemma_task_messages(v: DuelView, w: DuelView, unit: Processor, r: Option<Processor>)
    requires
        task_ran(v, w, unit, r),
    ensures
        w.messages == task_messages(v, unit, r),
{
    match unit {
        Processor::IdleCommand { step, player } => {
            let command = answer(v, 0, CMD_NEXT_PHASE);
            let index = answer(v, 1, 0) as int;
            let hand = v.field.hand(player as int);
            if step != 0 && command == CMD_SUMMON && index < hand.len() && v.normal_summons[player as int] < 1 {
                let s = choose|s: DuelView| #![trigger summoned(v, s, hand[index])] summoned(v, s, hand[index]) && w == sent(
                    DuelView { normal_summons: s.normal_summons.update(player as int, 1), ..s },
                    MSG_SELECT_IDLECMD,
                );
            } else if step != 0 && command == CMD_SET_SPELL_TRAP && index < hand.len() {
                let s = choose|s: DuelView|
                    #![trigger send_step(v, s, hand[index], Zone::SpellTrapZone)]
                    send_step(v, s, hand[index], Zone::SpellTrapZone) && w == sent(s, MSG_SELECT_IDLECMD);
            }
        },
        Processor::Activate { step, card, slot, player } => {
            if step == 0 {
                let (a, res) = choose|a: DuelView, res: Result<DuelStatus, ScriptError>|
                    #![trigger activated(v, a, card, slot, player, res)]
                    activated(v, a, card, slot, player, res) && if res == Ok::<DuelStatus, ScriptError>(
                        DuelStatus::Awaiting,
                    ) {
                        r == Some(Processor::Activate { step: 1, card, slot, player }) && w == sent(a, MSG_SELECT_CARD)
                    } else {
                        r is None && w == (DuelView { stack: a.stack + after_activation(player), ..a })
                    };
            } else {
                let (a, b) = choose|a: DuelView, b: DuelView|
                    #![trigger resumed_or_not(a, b)]
                    {
                        &&& a == (DuelView { ctx: EffectContext { targets: a.ctx.targets, ..v.ctx }, ..v })
                        &&& a.ctx.targets@ == picks(v)
                        &&& resumed_or_not(a, b)
                        &&& w == (DuelView { stack: b.stack + after_activation(player), ..b })
                    };
                if a.pending is Some {
                    let res = choose|res: Result<DuelStatus, ScriptError>| #![trigger resumed(a, b, res)] resumed(a, b, res);
                }
            }
        },
        Processor::Attack { step, attacker, player } => {
            lemma_attack_messages(v, w, step, attacker, player, r);
        },
        Processor::ChainResponse { step, player } => {
            let other = (1 - player) as usize;
            if step != 0 && v.responses.len() > 0 && v.responses[0] == CMD_RESPONSE {
                let (a, offered, b) = choose|a: DuelView, offered: Seq<(CardId, usize)>, b: DuelView|
                    #![trigger options_offered(v, a, player, offered), chose(a, b, offered, pick_of(v), player)]
                    {
                        &&& options_offered(v, a, player, offered)
                        &&& chose(a, b, offered, pick_of(v), player)
                        &&& w == queued(b, Processor::ChainResponse { step: 0, player: other })
                    };
                if 0 <= pick_of(v) < offered.len() {
                    let res = choose|res: Result<DuelStatus, ScriptError>|
                        #![trigger activated(a, b, offered[pick_of(v)].0, offered[pick_of(v)].1, player, res)]
                        activated(a, b, offered[pick_of(v)].0, offered[pick_of(v)].1, player, res);
                }
            }
        },
        Processor::Turn { step, player } => {
            let o = if step == 0 {
                turn_opened(v, player)
            } else {
                v
            };
            let m = sent(o, phase_msg(step as int));
            if step == 1 && m.turn_hist.len() > 1 {
                let drawn = choose|drawn: Seq<CardId>|
                    #![trigger drew_cards(m, w, player, 1, drawn)]
                    drew_cards(m, w, player, 1, drawn);
            }
        },
        _ => {},
    }
}

/// The attack task's outbox (see [`lemma_task_messages`]).
proof fn lemma_attack_messages(v: DuelView, w: DuelView, step: u16, attacker: CardId, player: usize, r: Option<Processor>)
    requires
        attack_ran(v, w, step, attacker, player, r),
    ensures
        w.messages == task_messages(v, Processor::Attack { step, attacker, player }, r),
{
    let targets = v.field.cards_at(((player + 1) % 2) as usize, Zone::MonsterZone);
    if step == 0 && targets.len() == 0 {
        lemma_declared_turns(v, w, attacker, None, player);
        lemma_declared_messages(v, w, attacker, None, player);
    } else if step == 1 {
        let idx = answer(v, 0, 0) as int;
        lemma_declared_messages(v, w, attacker, if idx < targets.len() { Some(targets[idx]) } else { None }, player);
    } else if step >= 2 {
        let a = choose|a: DuelView|
            #![trigger chain_settled(v, a)]
            chain_settled(v, a) && {
                let b = DuelView { window_timing: None, ..a };
                if step == 2 {
                    battle_dealt(b, w, attacker, player)
                } else {
                    exists|f: DuelView|
                        #![trigger rules_fired(b, f, EVENT_BATTLE_ENDED)]
                        rules_fired(b, f, EVENT_BATTLE_ENDED) && w == queued(
                            f,
                            Processor::BattleCommand { step: 0, player },
                        )
                }
            };
        let b = DuelView { window_timing: None, ..a };
        if step == 2 {
            let (c, opened) = choose|c: DuelView, opened: bool|
                #![trigger Duel::window_opened(queued(c, Processor::Attack { step: 3, attacker, player }), w, EVENT_POST_DAMAGE_CALCULATION, opened)]
                {
                    &&& match b.last_attack {
                        Some((x, t)) => {
                            let hurt = after_lp_loss(after_lp_loss(b, 0, dealt(b, 0)), 1, dealt(b, 1));
                            destroyed_all(hurt, c, battle_losers(hurt, x, t))
                        },
                        None => c == b,
                    }
                    &&& Duel::window_opened(
                        queued(c, Processor::Attack { step: 3, attacker, player }),
                        w,
                        EVENT_POST_DAMAGE_CALCULATION,
                        opened,
                    )
                };
            if let Some((x, t)) = b.last_attack {
                let hurt = after_lp_loss(after_lp_loss(b, 0, dealt(b, 0)), 1, dealt(b, 1));
                lemma_destroyed_all_messages(hurt, c, battle_losers(hurt, x, t));
            }
        } else {
            let f = choose|f: DuelView|
                #![trigger rules_fired(b, f, EVENT_BATTLE_ENDED)]
                rules_fired(b, f, EVENT_BATTLE_ENDED) && w == queued(f, Processor::BattleCommand { step: 0, player });
        }
    }
}

/// Destroying by battle sends no message.
proof fn lemma_destroyed_all_messages(v: DuelView, w: DuelView, cards: Seq<CardId>)
    requires
        destroyed_all(v, w, cards),
    ensures
        w.messages == v.messages,
        w.calls == v.calls,
{
    if cards.len() > 1 {
        let mid = choose|mid: DuelView|
            Duel::destroy_step(v, mid, cards[0], crate::reason::REASON_BATTLE) && Duel::destroy_step(
                mid,
                w,
                cards[1],
                crate::reason::REASON_BATTLE,
            );
    }
}

/// Declaring an attack sends no message.
proof fn lemma_declared_messages(v: DuelView, w: DuelView, attacker: CardId, target: Option<CardId>, player: usize)
    requires
        declared(v, w, attacker, target, player),
    ensures
        w.messages == v.messages,
{
    let d = DuelView { last_attack: Some((attacker, target)), attacked: v.attacked.insert(attacker.key), ..v };
    let opened = choose|opened: bool|
        #![trigger Duel::window_opened(
            queued(d, Processor::Attack { step: 2, attacker, player }),
            w,
            EVENT_PRE_DAMAGE_CALCULATION,
            opened,
        )]
        Duel::window_opened(
            queued(d, Processor::Attack { step: 2, attacker, player }),
            w,
            EVENT_PRE_DAMAGE_CALCULATION,
            opened,
        );
}

/// `a` is a prefix of `c`.
pub open spec fn leads(a: Seq<HostCall>, c: Seq<HostCall>) -> bool {
    a.len() <= c.len() && c.take(a.len() as int) == a
}

/// The outcome of an activation is fixed by the host's answers: two
/// activations from the same state whose records of calls both lead into
/// the same record end the same way, with the same record.
pub proof fn lemma_activation_fixed(
    v: DuelView,
    a1: DuelView,
    a2: DuelView,
    card: CardId,
    slot: usize,
    player: usize,
    res1: Result<DuelStatus, ScriptError>,
    res2: Result<DuelStatus, ScriptError>,
    c: Seq<HostCall>,
)
    requires
        activated(v, a1, card, slot, player, res1),
        activated(v, a2, card, slot, player, res2),
        leads(a1.calls, c),
        leads(a2.calls, c),
    ensures
        res1 == res2,
        a1.calls == a2.calls,
{
    if Duel::slot_index(v, card, slot) is Some {
        let n = v.calls.len() as int;
        assert(a1.calls[n] == c[n]) by {
            assert(c.take(a1.calls.len() as int)[n] == c[n]);
        }
        assert(a2.calls[n] == c[n]) by {
            assert(c.take(a2.calls.len() as int)[n] == c[n]);
        }
        if a1.calls.len() > n + 1 && a2.calls.len() > n + 1 {
            assert(a1.calls[n + 1] == c[n + 1]) by {
                assert(c.take(a1.calls.len() as int)[n + 1] == c[n + 1]);
            }
            assert(a2.calls[n + 1] == c[n + 1]) by {
                assert(c.take(a2.calls.len() as int)[n + 1] == c[n + 1]);
            }
        }
        if a1.calls.len() > n + 2 && a2.calls.len() > n + 2 {
            assert(a1.calls[n + 2] == c[n + 2]) by {
                assert(c.take(a1.calls.len() as int)[n + 2] == c[n + 2]);
            }
            assert(a2.calls[n + 2] == c[n + 2]) by {
                assert(c.take(a2.calls.len() as int)[n + 2] == c[n + 2]);
            }
        }
        assert(a1.calls.len() == a2.calls.len());
        assert(a1.calls =~= c.take(a1.calls.len() as int));
        assert(a2.calls =~= c.take(a2.calls.len() as int));
    }
}

/// The turn record after one step of a task: a turn's first step records
/// its player; every other step leaves the record as it was.
pub proof fn lemma_task_turn_hist(v: DuelView, w: DuelView, unit: Processor, r: Option<Processor>)
    requires
        task_ran(v, w, unit, r),
    ensures
        w.turn_hist == match unit {
            Processor::Turn { step, player } => if step == 0 {
                v.turn_hist.push(player)
            } else {
                v.turn_hist
            },
            _ => v.turn_hist,
        },
{
    match unit {
        Processor::Turn { step, player } => {
            let o = if step == 0 {
                turn_opened(v, player)
            } else {
                v
            };
            let m = sent(o, phase_msg(step as int));
            if step == 1 && m.turn_hist.len() > 1 {
                let drawn = choose|drawn: Seq<CardId>|
                    #![trigger drew_cards(m, w, player, 1, drawn)]
                    drew_cards(m, w, player, 1, drawn);
            }
        },
        Processor::Startup { .. } => {},
        _ => {
            lemma_other_task_turns(v, w, unit, r);
        },
    }
}

/// Processing events only adds host calls after the ones made before.
proof fn lemma_events_lead(v: DuelView, w: DuelView)
    requires
        events_done(v, w),
    ensures
        leads(v.calls, w.calls),
        w.messages == v.messages,
        w.turn_hist == v.turn_hist,
{
    let (fired, prompts, links) = choose|
        fired: Seq<(usize, CardId, usize, EventSnapshot)>,
        prompts: Seq<Processor>,
        links: Seq<crate::chain::ChainLink>,
    |
        #![trigger super::scripting::events_processed(v, w, fired, prompts, links)]
        super::scripting::events_processed(v, w, fired, prompts, links);
    let keys = choose|keys: Seq<(int, int)>|
        #![trigger super::scripting::collected_upto(v, w, keys, fired, prompts, (v.events.len() as int, 0))]
        super::scripting::collected_upto(v, w, keys, fired, prompts, (v.events.len() as int, 0));
}

/// The same host answers give the same step: two steps from one state whose
/// records of host calls end the same report the same status, send the
/// same messages and keep the same turn record.
pub proof fn lemma_step_fixed(v: DuelView, w1: DuelView, w2: DuelView, s1: DuelStatus, s2: DuelStatus)
    requires
        stepped(v, w1, s1),
        stepped(v, w2, s2),
        w1.calls == w2.calls,
    ensures
        s1 == s2,
        w1.messages == w2.messages,
        w1.turn_hist == w2.turn_hist,
{
    let (ran1, r1, ev1) = choose|ran: DuelView, r: Option<Processor>, ev: DuelView|
        #![trigger task_ran(top_taken(v), ran, v.stack.last(), r), events_done(ran, ev)]
        {
            &&& v.result is None
            &&& v.stack.len() > 0
            &&& task_ran(top_taken(v), ran, v.stack.last(), r)
            &&& events_done(ran, ev)
            &&& w1 == match r {
                Some(u) => DuelView { stack: ev.stack.insert(v.stack.len() - 1, u), ..ev },
                None => ev,
            }
            &&& s1 == match r {
                Some(u) => if u.spec_needs_answer() {
                    DuelStatus::Awaiting
                } else {
                    DuelStatus::Continue
                },
                None => DuelStatus::Continue,
            }
        };
    let (ran2, r2, ev2) = choose|ran: DuelView, r: Option<Processor>, ev: DuelView|
        #![trigger task_ran(top_taken(v), ran, v.stack.last(), r), events_done(ran, ev)]
        {
            &&& v.result is None
            &&& v.stack.len() > 0
            &&& task_ran(top_taken(v), ran, v.stack.last(), r)
            &&& events_done(ran, ev)
            &&& w2 == match r {
                Some(u) => DuelView { stack: ev.stack.insert(v.stack.len() - 1, u), ..ev },
                None => ev,
            }
            &&& s2 == match r {
                Some(u) => if u.spec_needs_answer() {
                    DuelStatus::Awaiting
                } else {
                    DuelStatus::Continue
                },
                None => DuelStatus::Continue,
            }
        };
    let t = top_taken(v);
    let unit = v.stack.last();
    lemma_events_lead(ran1, ev1);
    lemma_events_lead(ran2, ev2);
    assert(ev1.calls == w1.calls && ev2.calls == w2.calls);
    lemma_task_fixed(t, ran1, ran2, unit, r1, r2, w1.calls);
    lemma_task_messages(t, ran1, unit, r1);
    lemma_task_messages(t, ran2, unit, r2);
    lemma_task_turn_hist(t, ran1, unit, r1);
    lemma_task_turn_hist(t, ran2, unit, r2);
}

/// What a task leaves to resume is fixed by the state and the host's
/// answers.
proof fn lemma_task_fixed(
    v: DuelView,
    w1: DuelView,
    w2: DuelView,
    unit: Processor,
    r1: Option<Processor>,
    r2: Option<Processor>,
    c: Seq<HostCall>,
)
    requires
        task_ran(v, w1, unit, r1),
        task_ran(v, w2, unit, r2),
        leads(w1.calls, c),
        leads(w2.calls, c),
    ensures
        r1 == r2,
{
    match unit {
        Processor::Activate { step, card, slot, player } => {
            if step == 0 {
                let (a1, res1) = choose|a: DuelView, res: Result<DuelStatus, ScriptError>|
                    #![trigger activated(v, a, card, slot, player, res)]
                    activated(v, a, card, slot, player, res) && if res == Ok::<DuelStatus, ScriptError>(
                        DuelStatus::Awaiting,
                    ) {
                        r1 == Some(Processor::Activate { step: 1, card, slot, player }) && w1 == sent(a, MSG_SELECT_CARD)
                    } else {
                        r1 is None && w1 == (DuelView { stack: a.stack + after_activation(player), ..a })
                    };
                let (a2, res2) = choose|a: DuelView, res: Result<DuelStatus, ScriptError>|
                    #![trigger activated(v, a, card, slot, player, res)]
                    activated(v, a, card, slot, player, res) && if res == Ok::<DuelStatus, ScriptError>(
                        DuelStatus::Awaiting,
                    ) {
                        r2 == Some(Processor::Activate { step: 1, card, slot, player }) && w2 == sent(a, MSG_SELECT_CARD)
                    } else {
                        r2 is None && w2 == (DuelView { stack: a.stack + after_activation(player), ..a })
                    };
                assert(a1.calls == w1.calls && a2.calls == w2.calls);
                lemma_activation_fixed(v, a1, a2, card, slot, player, res1, res2, c);
            }
        },
        _ => {},
    }
}

/// `v` with its top task taken off.
pub open spec fn top_taken(v: DuelView) -> DuelView {
    DuelView { stack: v.stack.drop_last(), ..v }
}

/// `w` is `v` after one step of the driver reporting `s`: the duel was not
/// decided and had a task to run; the top task was
/// taken off and ran one step (see [`task_ran`]), the event queue was
/// processed, and a task not finished went back at its place in the stack
/// (below what it and the events queued); the duel freezes (`Awaiting`)
/// if that task waits for an answer, and runs on (`Continue`) otherwise.
pub open spec fn stepped(v: DuelView, w: DuelView, s: DuelStatus) -> bool {
    exists|ran: DuelView, r: Option<Processor>, ev: DuelView|
        #![trigger task_ran(top_taken(v), ran, v.stack.last(), r), events_done(ran, ev)]
        {
            &&& v.result is None
            &&& v.stack.len() > 0
            &&& task_ran(top_taken(v), ran, v.stack.last(), r)
            &&& events_done(ran, ev)
            &&& w == match r {
                Some(u) => DuelView { stack: ev.stack.insert(v.stack.len() - 1, u), ..ev },
                None => ev,
            }
            &&& s == match r {
                Some(u) => if u.spec_needs_answer() {
                    DuelStatus::Awaiting
                } else {
                    DuelStatus::Continue
                },
                None => DuelStatus::Continue,
            }
        }
}

/// `w` is `v` after `n` driver steps that each ran on (`Continue`).
pub open spec fn steps(v: DuelView, w: DuelView, n: nat) -> bool
    decreases n,
{
    if n == 0 {
        w == v
    } else {
        exists|mid: DuelView| #![trigger stepped(mid, w, DuelStatus::Continue)] steps(v, mid, (n - 1) as nat) && stepped(mid, w, DuelStatus::Continue)
    }
}

/// `w` is `v` after the driver loop reported `s`: steps ran on until one
/// found nothing to run or a decided duel (`End`, changing nothing), or
/// froze on a question (`Awaiting`). The loop never reports `Continue`.
pub open spec fn ran(v: DuelView, w: DuelView, s: DuelStatus) -> bool {
    exists|n: nat, mid: DuelView|
        #![trigger steps(v, mid, n)]
        steps(v, mid, n) && match s {
            DuelStatus::End => w == mid && (mid.result is Some || mid.stack.len() == 0),
            DuelStatus::Awaiting => stepped(mid, w, DuelStatus::Awaiting),
            DuelStatus::Continue => false,
        }
}

/// Prefixes chain.
proof fn lemma_prefix_trans<T>(a: Seq<T>, b: Seq<T>, c: Seq<T>)
    requires
        prefix_of(a, b),
        prefix_of(b, c),
    ensures
        prefix_of(a, c),
{
    assert(c.take(a.len() as int) =~= c.take(b.len() as int).take(a.len() as int));
}

/// A run step after a run step is a run step.
proof fn lemma_runs_trans(a: DuelView, b: DuelView, c: DuelView)
    requires
        runs_on(a, b),
        runs_on(b, c),
        a.lps.len() == 2,
    ensures
        runs_on(a, c),
{
    lemma_prefix_trans(a.messages, b.messages, c.messages);
    lemma_prefix_trans(a.turn_hist, b.turn_hist, c.turn_hist);
}

/// A task step after a task step is a task step.
proof fn lemma_grows_trans(a: DuelView, b: DuelView, c: DuelView)
    requires
        grows(a, b),
        grows(b, c),
        a.lps.len() == 2,
    ensures
        grows(a, c),
{
    lemma_runs_trans(a, b, c);
    lemma_prefix_trans(a.stack, b.stack, c.stack);
}

/// Every sequence is a prefix of itself.
proof fn lemma_prefix_refl<T>(a: Seq<T>)
    ensures
        prefix_of(a, a),
{
    assert(a.take(a.len() as int) =~= a);
}

/// Something pushed keeps the rest as a prefix.
proof fn lemma_prefix_push<T>(a: Seq<T>, x: T)
    ensures
        prefix_of(a, a.push(x)),
{
    assert(a.push(x).take(a.len() as int) =~= a);
}

/// A quiet change is a task step.
proof fn lemma_quiet_grows(v: DuelView, w: DuelView)
    requires
        quiet(v, w),
    ensures
        grows(v, w),
{
    lemma_prefix_refl(v.messages);
    lemma_prefix_refl(v.turn_hist);
    lemma_prefix_refl(v.stack);
}

/// A change of nothing that [`grows`] watches is a task step.
proof fn lemma_same_grows(v: DuelView, w: DuelView)
    requires
        w.messages == v.messages,
        w.turn_hist == v.turn_hist,
        w.stack == v.stack,
        w.lps == v.lps,
        w.responses == v.responses,
        w.max_turns == v.max_turns,
        w.effects == v.effects,
    ensures
        grows(v, w),
{
    lemma_prefix_refl(v.messages);
    lemma_prefix_refl(v.turn_hist);
    lemma_prefix_refl(v.stack);
}

impl Duel {
    // ===== Player I/O =======================================================

    /// Everything the engine has emitted, oldest first.
    pub fn messages(&self) -> (r: &[DuelMessage])
        ensures
            r@ == self@.messages,
    {
        self.messages.as_slice()
    }

    /// Replace the inbox with `response` (the host's answer to the last
    /// prompt).
    pub fn set_response(&mut self, response: &[u8])
        requires
            old(self).wf(),
        ensures
            final(self).wf(),
            final(self)@ == (DuelView { responses: response@, ..old(self)@ }),
    {
        self.responses.clear();
        assert(response@.take(0) =~= Seq::<u8>::empty());
        let mut i: usize = 0;
        while i < response.len()
            invariant
                self.wf(),
                i <= response@.len(),
                self@ == (DuelView { responses: response@.take(i as int), ..old(self)@ }),
            decreases response@.len() - i,
        {
            self.responses.push(response[i]);
            i = i + 1;
            assert(self@.responses =~= response@.take(i as int));
        }
        assert(response@.take(i as int) =~= response@);
    }

    /// Queue a task on top of the stack.
    fn push_task(&mut self, u: Processor)
        requires
            old(self).wf(),
        ensures
            final(self).wf(),
            final(self)@ == (DuelView { stack: old(self)@.stack.push(u), ..old(self)@ }),
            Duel::sound(old(self)@) && Duel::unit_ok(u, old(self)@.effects.len()) ==> Duel::sound(final(self)@),
    {
        self.processor_stack.push(u);
        proof {
            if Duel::sound(old(self)@) && Duel::unit_ok(u, old(self)@.effects.len()) {
                assert forall|i: int| 0 <= i < self@.stack.len() implies Duel::unit_ok(
                    #[trigger] self@.stack[i],
                    self@.effects.len(),
                ) by {
                    if i < old(self)@.stack.len() {
                        assert(self@.stack[i] == old(self)@.stack[i]);
                    }
                }
                assert(self@.cards == old(self)@.cards);
                assert(self@.chain == old(self)@.chain);
                assert(self@.turn_hist == old(self)@.turn_hist);
            }
        }
    }

    /// Write a message to the outbox.
    fn emit(&mut self, m: DuelMessage)
        requires
            old(self).wf(),
        ensures
            final(self).wf(),
            final(self)@ == (DuelView { messages: old(self)@.messages.push(m), ..old(self)@ }),
            Duel::sound(old(self)@) ==> Duel::sound(final(self)@),
    {
        self.messages.push(m);
        proof {
            if Duel::sound(old(self)@) {
                Duel::lemma_sound_keep(old(self)@, self@);
            }
        }
    }

    /// Queue a stand-alone "pick a card" prompt (used to select an effect
    /// target).
    pub fn select_card(&mut self)
        requires
            old(self).wf(),
        ensures
            final(self).wf(),
            final(self)@ == (DuelView {
                stack: old(self)@.stack.push(Processor::SelectCard { step: 0 }),
                ..old(self)@
            }),
            Duel::sound(old(self)@) ==> Duel::sound(final(self)@),
    {
        self.push_task(Processor::SelectCard { step: 0 });
    }

    /// Queue a stand-alone Main-Phase menu for player 0.
    pub fn idle_command(&mut self)
        requires
            old(self).wf(),
        ensures
            final(self).wf(),
            final(self)@ == (DuelView {
                stack: old(self)@.stack.push(Processor::IdleCommand { step: 0, player: PLAYER_0 }),
                ..old(self)@
            }),
            Duel::sound(old(self)@) ==> Duel::sound(final(self)@),
    {
        self.idle_command_for(PLAYER_0);
    }

    /// Queue a stand-alone Main-Phase menu for `player`.
    pub fn idle_command_for(&mut self, player: usize)
        requires
            old(self).wf(),
        ensures
            final(self).wf(),
            final(self)@ == (DuelView {
                stack: old(self)@.stack.push(Processor::IdleCommand { step: 0, player }),
                ..old(self)@
            }),
            Duel::sound(old(self)@) && player < 2 ==> Duel::sound(final(self)@),
    {
        self.push_task(Processor::IdleCommand { step: 0, player });
    }

    // ===== Turn control =====================================================

    /// Queue the duel's start-up.
    pub fn start(&mut self)
        requires
            old(self).wf(),
        ensures
            final(self).wf(),
            final(self)@ == (DuelView {
                stack: old(self)@.stack.push(Processor::Startup { step: 0 }),
                ..old(self)@
            }),
            Duel::sound(old(self)@) ==> Duel::sound(final(self)@),
    {
        self.push_task(Processor::Startup { step: 0 });
    }

    /// Set how many turns may run at most.
    pub fn set_max_turns(&mut self, turns: usize)
        requires
            old(self).wf(),
        ensures
            final(self).wf(),
            final(self)@ == (DuelView { max_turns: turns, ..old(self)@ }),
            Duel::sound(old(self)@) ==> Duel::sound(final(self)@),
    {
        self.max_turns = turns;
        proof {
            if Duel::sound(old(self)@) {
                Duel::lemma_sound_keep(old(self)@, self@);
            }
        }
    }

    /// Which player took each turn, in order.
    pub fn turn_history(&self) -> (r: &[usize])
        ensures
            r@ == self@.turn_hist,
    {
        self.turn_hist.as_slice()
    }

    /// How many links the chain has.
    pub fn chain_length(&self) -> (n: usize)
        ensures
            n == self@.chain.len(),
    {
        self.chain.len()
    }

    /// The message announcing phase `i` of a turn.
    fn phase_message(i: u16) -> (m: DuelMessage)
        ensures
            m == phase_msg(i as int),
    {
        match i {
            0 => MSG_NEW_TURN,
            1 => MSG_PHASE_DRAW,
            2 => MSG_PHASE_STANDBY,
            3 => MSG_PHASE_MAIN1,
            4 => MSG_PHASE_BATTLE,
            5 => MSG_PHASE_MAIN2,
            _ => MSG_PHASE_END,
        }
    }

    /// The first byte of the inbox, or `default` if it is empty.
    fn response_byte(&self, i: usize, default: u8) -> (b: u8)
        ensures
            b == if i < self@.responses.len() {
                self@.responses[i as int]
            } else {
                default
            },
    {
        if i < self.responses.len() {
            self.responses[i]
        } else {
            default
        }
    }

    // ===== Processor driver =================================================

    /// Run tasks with no card scripts loaded (see [`Duel::process_with`]).
    pub fn process(&mut self) -> (s: DuelStatus)
        requires
            old(self).wf(),
            Duel::sound(old(self)@),
        ensures
            final(self).wf(),
            Duel::sound(final(self)@),
            runs_on(old(self)@, final(self)@),
            s != DuelStatus::Continue,
            old(self)@.result is Some || old(self)@.stack.len() == 0 ==> s == DuelStatus::End
                && final(self)@ == old(self)@,
            s == DuelStatus::End ==> final(self)@.result is Some || final(self)@.stack.len() == 0,
            ran(old(self)@, final(self)@, s),
            s == DuelStatus::Awaiting ==> final(self)@.messages.len() > 0 && asks_player(
                final(self)@.messages.last(),
            ),
    {
        let mut host = NoScripts;
        self.process_with(&mut host)
    }

    /// The outer loop: run the top task one step at a time until the stack
    /// drains or the duel is decided (`End`), or a task freezes to ask a
    /// human (`Awaiting`). It always stops: every step that runs on lowers
    /// the work left before the next question (see
    /// [`super::progress::work_left`]).
    pub fn process_with<H: ScriptHost>(&mut self, host: &mut H) -> (s: DuelStatus)
        requires
            old(self).wf(),
            Duel::sound(old(self)@),
        ensures
            final(self).wf(),
            Duel::sound(final(self)@),
            runs_on(old(self)@, final(self)@),
            s != DuelStatus::Continue,
            old(self)@.result is Some || old(self)@.stack.len() == 0 ==> s == DuelStatus::End
                && final(self)@ == old(self)@,
            s == DuelStatus::End ==> final(self)@.result is Some || final(self)@.stack.len() == 0,
            ran(old(self)@, final(self)@, s),
            s == DuelStatus::Awaiting ==> final(self)@.messages.len() > 0 && asks_player(
                final(self)@.messages.last(),
            ),
    {
        let ghost mut n: nat = 0;
        proof {
            lemma_prefix_refl(self@.messages);
            lemma_prefix_refl(self@.turn_hist);
        }
        loop
            invariant
                self.wf(),
                Duel::sound(self@),
                runs_on(old(self)@, self@),
                old(self)@.lps.len() == 2,
                old(self)@.result is Some || old(self)@.stack.len() == 0 ==> self@ == old(self)@,
                steps(old(self)@, self@, n),
            decreases work_left(self@.stack),
        {
            let ghost before = self@;
            let s = self.step_with(host);
            proof {
                lemma_runs_trans(old(self)@, before, self@);
            }
            match s {
                DuelStatus::Continue => {
                    proof {
                        assert(stepped(before, self@, DuelStatus::Continue));
                        lemma_step_work(before, self@);
                        n = n + 1;
                        assert(steps(old(self)@, self@, n));
                    }
                },
                other => {
                    proof {
                        assert(ran(old(self)@, self@, other)) by {
                            assert(steps(old(self)@, before, n));
                        }
                    }
                    return other;
                },
            }
        }
    }

    /// Run the top task once, with no card scripts loaded (see
    /// [`Duel::step_with`]).
    pub fn step(&mut self) -> (s: DuelStatus)
        requires
            old(self).wf(),
            Duel::sound(old(self)@),
        ensures
            final(self).wf(),
            Duel::sound(final(self)@),
            runs_on(old(self)@, final(self)@),
            old(self)@.result is Some || old(self)@.stack.len() == 0 ==> s == DuelStatus::End && final(self)@
                == old(self)@,
            old(self)@.result is None && old(self)@.stack.len() > 0 ==> s != DuelStatus::End
                && prefix_of(old(self)@.stack.drop_last(), final(self)@.stack),
            s == DuelStatus::Awaiting ==> final(self)@.stack[old(self)@.stack.len() - 1].spec_needs_answer(),
            old(self)@.result is None && old(self)@.stack.len() > 0 ==> stepped(old(self)@, final(self)@, s),
            s == DuelStatus::Awaiting ==> final(self)@.messages.len() > 0 && asks_player(
                final(self)@.messages.last(),
            ),
    {
        let mut host = NoScripts;
        self.step_with(&mut host)
    }

    /// Run the top task once: a decided duel or an empty stack runs nothing
    /// (`End`). Otherwise the top task is taken off and stepped, then the
    /// event queue is processed; a task that is not finished goes back on
    /// the stack below anything it queued (so those run first), and the
    /// duel freezes (`Awaiting`) if it needs an answer, else runs on
    /// (`Continue`). The tasks below the top are never touched.
    pub fn step_with<H: ScriptHost>(&mut self, host: &mut H) -> (s: DuelStatus)
        requires
            old(self).wf(),
            Duel::sound(old(self)@),
        ensures
            final(self).wf(),
            Duel::sound(final(self)@),
            runs_on(old(self)@, final(self)@),
            old(self)@.result is Some || old(self)@.stack.len() == 0 ==> s == DuelStatus::End && final(self)@
                == old(self)@,
            old(self)@.result is None && old(self)@.stack.len() > 0 ==> s != DuelStatus::End
                && prefix_of(old(self)@.stack.drop_last(), final(self)@.stack),
            s == DuelStatus::Awaiting ==> final(self)@.stack[old(self)@.stack.len() - 1].spec_needs_answer(),
            old(self)@.result is None && old(self)@.stack.len() > 0 ==> stepped(old(self)@, final(self)@, s),
            s == DuelStatus::Awaiting ==> final(self)@.messages.len() > 0 && asks_player(
                final(self)@.messages.last(),
            ),
    {
        proof {
            lemma_prefix_refl(self@.messages);
            lemma_prefix_refl(self@.turn_hist);
        }
        // A decided game runs nothing more.
        if self.result.is_some() {
            return DuelStatus::End;
        }
        let unit = match self.processor_stack.pop() {
            Some(u) => u,
            None => {
                return DuelStatus::End;
            },
        };
        let ghost popped = self@;
        proof {
            assert(Duel::unit_ok(unit, self@.effects.len())) by {
                assert(old(self)@.stack[old(self)@.stack.len() - 1] == unit);
            }
            assert forall|i: int| 0 <= i < self@.stack.len() implies Duel::unit_ok(#[trigger] self@.stack[i], self@.effects.len()) by {
                assert(self@.stack[i] == old(self)@.stack[i]);
            }
            Duel::lemma_sound_keep(DuelView { stack: self@.stack, ..old(self)@ }, self@);
        }
        // Anything the task queues lands on top, at indices >= this depth.
        let depth = self.processor_stack.len();
        proof {
            assert(popped == top_taken(old(self)@));
            assert(unit == old(self)@.stack.last());
        }
        let r = self.run_unit(unit, host);
        let ghost ran = self@;
        self.process_events(host);
        let ghost ev = self@;
        proof {
            let (f, pr, l) = choose|fired: Seq<(usize, CardId, usize, EventSnapshot)>, prompts: Seq<Processor>, links: Seq<crate::chain::ChainLink>|
                #![trigger super::scripting::events_processed(ran, self@, fired, prompts, links)]
                super::scripting::events_processed(ran, self@, fired, prompts, links);
            Duel::lemma_events_grow(ran, self@, f, pr, l);
            lemma_grows_trans(popped, ran, self@);
        }
        match r {
            None => {
                proof {
                    assert(stepped(old(self)@, self@, DuelStatus::Continue));
                }
                DuelStatus::Continue
            },
            Some(u) => {
                let freeze = u.needs_answer();
                let ghost before = self@;
                self.processor_stack.insert(depth, u);
                proof {
                    assert(self@.stack.take(depth as int) =~= before.stack.take(depth as int));
                    assert forall|i: int| 0 <= i < self@.stack.len() implies Duel::unit_ok(
                        #[trigger] self@.stack[i],
                        self@.effects.len(),
                    ) by {
                        if i < depth {
                            assert(self@.stack[i] == before.stack[i]);
                        } else if i > depth {
                            assert(self@.stack[i] == before.stack[i - 1]);
                        }
                    }
                    Duel::lemma_sound_keep(DuelView { stack: self@.stack, ..before }, self@);
                    lemma_prefix_refl(before.messages);
                    lemma_prefix_refl(before.turn_hist);
                    lemma_runs_trans(old(self)@, before, self@);
                    assert(popped.stack == old(self)@.stack.drop_last());
                    assert(self@.stack.take(popped.stack.len() as int) =~= popped.stack);
                }
                proof {
                    assert(self@ == DuelView { stack: ev.stack.insert(old(self)@.stack.len() - 1, u), ..ev });
                }
                if freeze {
                    // A task waiting for a human freezes the duel.
                    proof {
                        assert(stepped(old(self)@, self@, DuelStatus::Awaiting));
                        lemma_waiting_task_asked(popped, ran, unit, r);
                        assert(self@.messages == ran.messages);
                    }
                    DuelStatus::Awaiting
                } else {
                    proof {
                        assert(stepped(old(self)@, self@, DuelStatus::Continue));
                    }
                    DuelStatus::Continue
                }
            },
        }
    }

    /// Processing events only grows the stack on top and keeps the rest.
    proof fn lemma_events_grow(
        v: DuelView,
        w: DuelView,
        fired: Seq<(usize, CardId, usize, EventSnapshot)>,
        prompts: Seq<Processor>,
        links: Seq<crate::chain::ChainLink>,
    )
        requires
            super::scripting::events_processed(v, w, fired, prompts, links),
            w == (DuelView { events: w.events, chain: w.chain, stack: w.stack, passes: w.passes, ctx: w.ctx, calls: w.calls, ..v }),
        ensures
            grows(v, w),
    {
        lemma_prefix_refl(v.messages);
        lemma_prefix_refl(v.turn_hist);
        assert(w.stack.take(v.stack.len() as int) =~= v.stack);
    }

    /// One step of one task: `None` when the task is finished, otherwise
    /// the task as it is to resume.
    fn run_unit<H: ScriptHost>(&mut self, unit: Processor, host: &mut H) -> (r: Option<Processor>)
        requires
            old(self).wf(),
            Duel::sound(old(self)@),
            Duel::unit_ok(unit, old(self)@.effects.len()),
        ensures
            final(self).wf(),
            Duel::sound(final(self)@),
            grows(old(self)@, final(self)@),
            task_ran(old(self)@, final(self)@, unit, r),
            r matches Some(u) ==> Duel::unit_ok(u, final(self)@.effects.len()) && u.spec_needs_answer()
                == unit.spec_needs_answer(),
    {
        match unit {
            Processor::Startup { step } => self.run_startup(step),
            Processor::Turn { step, player } => self.run_turn(step, player),
            Processor::SelectCard { step } => {
                if step == 0 {
                    self.emit(MSG_SELECT_CARD);
                    proof {
                        lemma_same_grows(old(self)@, old(self)@);
                        lemma_prefix_push(old(self)@.messages, MSG_SELECT_CARD);
                    }
                    Some(Processor::SelectCard { step: 1 })
                } else {
                    proof {
                        lemma_same_grows(old(self)@, self@);
                    }
                    None
                }
            },
            Processor::IdleCommand { step, player } => self.run_idle_command(step, player, host),
            Processor::Activate { step, card, slot, player } => self.run_activate(step, card, slot, player, host),
            Processor::BattleCommand { step, player } => self.run_battle_command(step, player),
            Processor::Attack { step, attacker, player } => self.run_attack(step, attacker, player, host),
            Processor::OptionalTrigger { step, effect, card, player, event } => self.run_optional_trigger(
                step,
                effect,
                card,
                player,
                event,
                host,
            ),
            Processor::ResolveChain { .. } => {
                self.resolve_chain(host);
                proof {
                    lemma_same_grows(old(self)@, self@);
                }
                None
            },
            Processor::ChainResponse { step, player } => self.run_chain_response(step, player, host),
        }
    }

    /// The start-up: announce it, then hand over to player 0's first turn.
    fn run_startup(&mut self, step: u16) -> (r: Option<Processor>)
        requires
            old(self).wf(),
            Duel::sound(old(self)@),
        ensures
            final(self).wf(),
            Duel::sound(final(self)@),
            grows(old(self)@, final(self)@),
            startup_ran(old(self)@, final(self)@, step, r),
    {
        if step == 0 {
            self.emit(MSG_STARTUP);
            proof {
                lemma_prefix_push(old(self)@.messages, MSG_STARTUP);
                lemma_prefix_refl(old(self)@.turn_hist);
                lemma_prefix_refl(old(self)@.stack);
            }
            Some(Processor::Startup { step: 1 })
        } else {
            self.push_task(Processor::Turn { step: 0, player: PLAYER_0 });
            proof {
                lemma_prefix_refl(old(self)@.messages);
                lemma_prefix_refl(old(self)@.turn_hist);
                lemma_prefix_push(old(self)@.stack, Processor::Turn { step: 0, player: PLAYER_0 });
            }
            None
        }
    }

    /// One phase of `player`'s turn. Phase 0 opens the turn (recorded in
    /// the turn record; Normal Summons and attacks are available again).
    /// Each phase is announced; the Main Phases and the Battle Phase queue
    /// their menu and pause until it is done; every Draw Phase but the very
    /// first turn's draws a card; after the End Phase the other player's
    /// turn is queued unless the turn limit is reached.
    fn run_turn(&mut self, step: u16, player: usize) -> (r: Option<Processor>)
        requires
            old(self).wf(),
            Duel::sound(old(self)@),
            step < 7,
            player < 2,
        ensures
            final(self).wf(),
            Duel::sound(final(self)@),
            grows(old(self)@, final(self)@),
            turn_ran(old(self)@, final(self)@, step, player, r),
            final(self)@.messages.last() == phase_msg(step as int),
            step == 0 ==> final(self)@.turn_hist == old(self)@.turn_hist.push(player),
            step != 0 ==> final(self)@.turn_hist == old(self)@.turn_hist,
            r matches Some(u) ==> (u == (Processor::Turn { step: (step + 1) as u16, player }) && step + 1 < 7),
            (r is None) <==> (step == 6),
            step == 0 ==> final(self)@.attacked == Set::<u64>::empty() && final(self)@.normal_summons == seq![0u8, 0u8],
            step == 1 ==> final(self)@.field.hand(player as int).len() == old(self)@.field.hand(player as int).len()
                + if old(self)@.turn_hist.len() > 1 {
                crate::field::min_count(1, old(self)@.field.deck(player as int).len() as int)
            } else {
                0
            },
            step == 6 ==> final(self)@.stack == if old(self)@.turn_hist.len() < old(self)@.max_turns {
                old(self)@.stack.push(Processor::Turn { step: 0, player: (1 - player) as usize })
            } else {
                old(self)@.stack
            },
    {
        let ghost v0 = self@;
        if step == 0 {
            self.turn_hist.push(player);
            self.effect_ctx.turn_player = player;
            self.reset_normal_summons();
            self.reset_attacks();
            proof {
                assert forall|i: int| 0 <= i < self@.turn_hist.len() implies #[trigger] self@.turn_hist[i] < 2 by {
                    if i < v0.turn_hist.len() {
                        assert(self@.turn_hist[i] == v0.turn_hist[i]);
                    }
                }
                Duel::lemma_sound_keep(
                    DuelView {
                        turn_hist: self@.turn_hist,
                        normal_summons: self@.normal_summons,
                        ..v0
                    },
                    self@,
                );
                lemma_prefix_push(v0.turn_hist, player);
            }
        } else {
            proof {
                lemma_prefix_refl(v0.turn_hist);
            }
        }
        let ghost opened = self@;
        let msg = Duel::phase_message(step);
        self.emit(msg);
        proof {
            lemma_prefix_push(v0.messages, msg);
            lemma_prefix_refl(v0.stack);
        }
        if step == 3 || step == 5 {
            self.push_task(Processor::IdleCommand { step: 0, player });
            proof {
                lemma_prefix_push(v0.stack, Processor::IdleCommand { step: 0, player });
            }
            return Some(Processor::Turn { step: step + 1, player });
        } else if step == 4 {
            self.push_task(Processor::BattleCommand { step: 0, player });
            proof {
                lemma_prefix_push(v0.stack, Processor::BattleCommand { step: 0, player });
            }
            return Some(Processor::Turn { step: step + 1, player });
        } else if step == 1 && self.turn_hist.len() > 1 {
            // Every turn draws but the very first (the opening player skips
            // their turn-1 draw).
            let ghost before = self@;
            let drawn = self.draw(player, 1);
            proof {
                crate::field::lemma_place_all_players(before.field.locs(), drawn@, (player, crate::zone::Zone::Hand));
                Duel::lemma_sound_keep(before, self@);
                lemma_prefix_refl(before.messages);
            }
        }
        let ghost before_end = self@;
        proof {
            assert(before_end.messages == v0.messages.push(msg));
            assert(before_end.stack == v0.stack);
            assert(lp_down(v0, before_end));
        }
        if step == 6 {
            if self.turn_hist.len() < self.max_turns {
                let next = if player == PLAYER_0 {
                    PLAYER_1
                } else {
                    PLAYER_0
                };
                self.push_task(Processor::Turn { step: 0, player: next });
                proof {
                    lemma_prefix_push(v0.stack, Processor::Turn { step: 0, player: next });
                }
            }
            None
        } else {
            Some(Processor::Turn { step: step + 1, player })
        }
    }

    /// Soundness survives a Normal Summon: the card moves within its
    /// controller's side and only its position changes.
    proof fn lemma_summon_sound(v: DuelView, w: DuelView)
        requires
            Duel::sound(v),
            w.field.players_in_range(),
            w.cards.dom() == v.cards.dom(),
            forall|k: u64| #[trigger] w.cards.contains_key(k) ==> w.cards[k].data == v.cards[k].data
                && w.cards[k].modifiers == v.cards[k].modifiers,
            w == (DuelView { cards: w.cards, field: w.field, normal_summons: w.normal_summons, ..v }),
        ensures
            Duel::sound(w),
    {
        assert forall|k: u64| #[trigger] w.cards.contains_key(k) implies super::board::small_card(w.cards[k]) by {
            assert(v.cards.contains_key(k));
        }
    }

    /// The Main-Phase menu of `player`. Step 0 offers it (`MSG_SELECT_IDLECMD`)
    /// and waits. Then the answer `[command, index]` (an empty answer means
    /// "next phase") is acted on:
    /// - next phase: the menu is done;
    /// - summon: the card in hand slot `index` is Normal Summoned, if there is
    ///   one and `player` has not Normal Summoned this turn; the menu is
    ///   offered again;
    /// - set: the card in hand slot `index` is set in the Spell & Trap Zone,
    ///   if there is one; the menu is offered again;
    /// - activate: the `index`-th of `player`'s activatable effects (see
    ///   [`Duel::activatable_effects`]), if there is one, is queued for
    ///   activation; the menu is done (the activation returns to it);
    /// - anything else: the menu is offered again.
    fn run_idle_command<H: ScriptHost>(&mut self, step: u16, player: usize, host: &mut H) -> (r: Option<Processor>)
        requires
            old(self).wf(),
            Duel::sound(old(self)@),
            player < 2,
        ensures
            final(self).wf(),
            Duel::sound(final(self)@),
            grows(old(self)@, final(self)@),
            idle_ran(old(self)@, final(self)@, step, player, r),
    {
        let ghost v0 = self@;
        proof {
            lemma_same_grows(v0, v0);
            lemma_prefix_push(v0.messages, MSG_SELECT_IDLECMD);
        }
        if step == 0 {
            self.emit(MSG_SELECT_IDLECMD);
            return Some(Processor::IdleCommand { step: 1, player });
        }
        let command = self.response_byte(0, CMD_NEXT_PHASE);
        if command == CMD_NEXT_PHASE {
            None
        } else if command == CMD_SUMMON {
            let slot = self.response_byte(1, 0) as usize;
            match self.hand_card(player, slot) {
                Some(card) => {
                    if self.can_normal_summon(player) {
                        proof {
                            self@.field.lemma_players_piles(card);
                        }
                        self.summon(card);
                        let ghost s1 = self@;
                        proof {
                            crate::field::Field::lemma_send_keeps_players(&v0.field, &self@.field, card, crate::zone::Zone::MonsterZone);
                        }
                        self.record_normal_summon(player);
                        proof {
                            assert(self@.cards.dom() =~= v0.cards.dom());
                            Duel::lemma_summon_sound(v0, self@);
                            assert(self@ == DuelView { normal_summons: s1.normal_summons.update(player as int, 1), ..s1 });
                        }
                        self.emit(MSG_SELECT_IDLECMD);
                        proof {
                            assert(summoned(v0, s1, v0.field.hand(player as int)[answer(v0, 1, 0) as int]));
                        }
                        return Some(Processor::IdleCommand { step, player });
                    }
                },
                None => {},
            }
            self.emit(MSG_SELECT_IDLECMD);
            proof {
                lemma_prefix_push(v0.messages, MSG_SELECT_IDLECMD);
            }
            Some(Processor::IdleCommand { step, player })
        } else if command == CMD_SET_SPELL_TRAP {
            let slot = self.response_byte(1, 0) as usize;
            match self.hand_card(player, slot) {
                Some(card) => {
                    proof {
                        self@.field.lemma_players_piles(card);
                    }
                    self.set_spell_trap(card);
                    let ghost s1 = self@;
                    proof {
                        crate::field::Field::lemma_send_keeps_players(&v0.field, &self@.field, card, crate::zone::Zone::SpellTrapZone);
                        Duel::lemma_sound_keep(v0, self@);
                    }
                    self.emit(MSG_SELECT_IDLECMD);
                    proof {
                        assert(send_step(v0, s1, v0.field.hand(player as int)[answer(v0, 1, 0) as int], Zone::SpellTrapZone));
                        lemma_prefix_push(v0.messages, MSG_SELECT_IDLECMD);
                    }
                    return Some(Processor::IdleCommand { step, player });
                },
                None => {},
            }
            self.emit(MSG_SELECT_IDLECMD);
            Some(Processor::IdleCommand { step, player })
        } else if command == CMD_ACTIVATE {
            // The index picks one of the player's activatable effects.
            let opt = self.response_byte(1, 0) as usize;
            let options = self.activatable_effects(player, host);
            let ghost asked = self@;
            proof {
                Duel::lemma_sound_keep(v0, asked);
            }
            if opt < options.len() {
                let (card, slot) = options[opt];
                self.push_task(Processor::Activate { step: 0, card, slot, player });
                proof {
                    lemma_prefix_push(v0.stack, Processor::Activate { step: 0, card, slot, player });
                }
            }
            proof {
                assert(picked_from(options@, main_offers(v0, player)));
                assert(with_stage(v0, self@) == asked);
                assert(offers_approved(v0, with_stage(v0, self@), main_offers(v0, player), player, true, options@));
            }
            None
        } else {
            self.emit(MSG_SELECT_IDLECMD);
            Some(Processor::IdleCommand { step, player })
        }
    }

    /// An activation from the Main-Phase menu. Step 0 activates (see
    /// [`Duel::activate`]); if it froze for a selection, the selection prompt
    /// (`MSG_SELECT_CARD`) is sent and the task waits. Otherwise, and after
    /// the selection (the answer's bytes are indices into the offered
    /// candidates; out-of-range ones are ignored) has resumed the frozen
    /// activation, the player's menu is queued under a chain resolution
    /// under the opponent's response window.
    fn run_activate<H: ScriptHost>(
        &mut self,
        step: u16,
        card: CardId,
        slot: usize,
        player: usize,
        host: &mut H,
    ) -> (r: Option<Processor>)
        requires
            old(self).wf(),
            Duel::sound(old(self)@),
            player < 2,
        ensures
            final(self).wf(),
            Duel::sound(final(self)@),
            grows(old(self)@, final(self)@),
            activate_ran(old(self)@, final(self)@, step, card, slot, player, r),
            r matches Some(u) ==> step == 0 && u == (Processor::Activate { step: 1, card, slot, player }),
    {
        let ghost v0 = self@;
        let ghost cands = v0.ctx.candidates@;
        if step == 0 {
            let res = self.activate(card, slot, player, host);
            let ghost a = self@;
            proof {
                lemma_quiet_grows(v0, a);
                assert(activated(v0, a, card, slot, player, res));
            }
            match res {
                Ok(DuelStatus::Awaiting) => {
                    self.emit(MSG_SELECT_CARD);
                    proof {
                        lemma_prefix_push(a.messages, MSG_SELECT_CARD);
                        lemma_same_grows(a, a);
                        lemma_grows_trans(v0, a, self@);
                    }
                    return Some(Processor::Activate { step: 1, card, slot, player });
                },
                _ => {},
            }
        } else {
            // The answer's bytes pick among the offered candidates.
            let n = self.effect_ctx.candidates.len();
            let mut indices: Vec<usize> = Vec::new();
            let mut i: usize = 0;
            while i < self.responses.len()
                invariant
                    self@ == v0,
                    cands == v0.ctx.candidates@,
                    i <= self@.responses.len(),
                    n == cands.len(),
                    forall|j: int| 0 <= j < indices@.len() ==> indices@[j] < n,
                    indices@.map_values(|k: usize| cands[k as int]) == self@.responses.take(i as int).filter(
                        |b: u8| (b as int) < cands.len(),
                    ).map_values(|b: u8| cands[b as int]),
                decreases self@.responses.len() - i,
            {
                let b = self.responses[i] as usize;
                let ghost before = indices@;
                proof {
                    assert(self@.responses.take(i as int + 1).drop_last() =~= self@.responses.take(i as int));
                    reveal_with_fuel(Seq::filter, 1);
                }
                if b < n {
                    indices.push(b);
                    proof {
                        assert(indices@.map_values(|k: usize| cands[k as int]) =~= before.map_values(|k: usize| cands[k as int]).push(cands[b as int]));
                    }
                }
                i = i + 1;
            }
            proof {
                assert(self@.responses.take(i as int) =~= self@.responses);
            }
            self.answer_selection(indices);
            let ghost a = self@;
            proof {
                assert(a.ctx.targets@ =~= picks(v0));
                Duel::lemma_sound_keep(v0, self@);
                lemma_same_grows(v0, self@);
            }
            if self.pending.is_some() {
                let res = self.resume(host);
                proof {
                    assert(resumed(a, self@, res));
                    lemma_same_grows(a, self@);
                    lemma_grows_trans(v0, a, self@);
                }
            }
            proof {
                assert(resumed_or_not(a, self@));
            }
        }
        let ghost mid = self@;
        self.push_task(Processor::IdleCommand { step: 0, player });
        self.push_task(Processor::ResolveChain { step: 0 });
        self.push_task(Processor::ChainResponse { step: 0, player: 1 - player });
        proof {
            assert(self@.stack =~= mid.stack + after_activation(player));
            assert(self@ == DuelView { stack: mid.stack + after_activation(player), ..mid });
            assert(self@.stack.take(mid.stack.len() as int) =~= mid.stack);
            lemma_prefix_refl(mid.messages);
            lemma_prefix_refl(mid.turn_hist);
            lemma_grows_trans(v0, mid, self@);
            assert(mid.stack == v0.stack);
        }
        None
    }

    /// The Battle-Phase menu of `player`. Step 0 offers it
    /// (`MSG_SELECT_BATTLECMD`) and waits. Then the answer `[command, index]`
    /// (an empty answer means "next phase") is acted on: next phase ends
    /// the menu; attack with the `index`-th of `player`'s ready attackers
    /// queues that attack and ends the menu (the attack reopens it); a
    /// missing attacker, or any other command, offers the menu again.
    fn run_battle_command(&mut self, step: u16, player: usize) -> (r: Option<Processor>)
        requires
            old(self).wf(),
            Duel::sound(old(self)@),
            player < 2,
        ensures
            final(self).wf(),
            Duel::sound(final(self)@),
            grows(old(self)@, final(self)@),
            battle_menu_ran(old(self)@, final(self)@, step, player, r),
    {
        let ghost v0 = self@;
        proof {
            lemma_same_grows(v0, v0);
            lemma_prefix_push(v0.messages, MSG_SELECT_BATTLECMD);
        }
        if step == 0 {
            self.emit(MSG_SELECT_BATTLECMD);
            return Some(Processor::BattleCommand { step: 1, player });
        }
        let command = self.response_byte(0, CMD_NEXT_PHASE);
        if command == CMD_NEXT_PHASE {
            return None;
        }
        if command == CMD_ATTACK {
            let idx = self.response_byte(1, 0) as usize;
            let attackers = self.attackers(player);
            if idx < attackers.len() {
                let attacker = attackers[idx];
                self.push_task(Processor::Attack { step: 0, attacker, player });
                proof {
                    lemma_prefix_push(v0.stack, Processor::Attack { step: 0, attacker, player });
                    lemma_prefix_refl(v0.messages);
                }
                return None;
            }
        }
        self.emit(MSG_SELECT_BATTLECMD);
        Some(Processor::BattleCommand { step, player })
    }

    /// Reopen the Battle-Phase menu so `player` can attack with another
    /// monster (until they move on).
    fn reopen_battle_menu(&mut self, player: usize)
        requires
            old(self).wf(),
        ensures
            final(self).wf(),
            final(self)@ == (DuelView {
                stack: old(self)@.stack.push(Processor::BattleCommand { step: 0, player }),
                ..old(self)@
            }),
            Duel::sound(old(self)@) && player < 2 ==> Duel::sound(final(self)@),
    {
        self.push_task(Processor::BattleCommand { step: 0, player });
    }

    /// Queue the attack to resume at `step` once a window pushed after it
    /// (the before- or after-damage response window) has closed.
    fn resume_attack_at(&mut self, step: u16, attacker: CardId, player: usize)
        requires
            old(self).wf(),
        ensures
            final(self).wf(),
            final(self)@ == (DuelView {
                stack: old(self)@.stack.push(Processor::Attack { step, attacker, player }),
                ..old(self)@
            }),
            Duel::sound(old(self)@) && player < 2 ==> Duel::sound(final(self)@),
    {
        self.push_task(Processor::Attack { step, attacker, player });
    }

    /// Declare `attacker`'s attack on `target`, queue the attack to resume
    /// at the damage step, and open the before-damage-calculation window.
    fn declare_and_wait<H: ScriptHost>(&mut self, attacker: CardId, target: Option<CardId>, player: usize, host: &mut H)
        requires
            old(self).wf(),
            Duel::sound(old(self)@),
            player < 2,
        ensures
            final(self).wf(),
            Duel::sound(final(self)@),
            grows(old(self)@, final(self)@),
            declared(old(self)@, final(self)@, attacker, target, player),
    {
        let ghost v0 = self@;
        self.declare_attack(attacker, target);
        proof {
            Duel::lemma_sound_keep(v0, self@);
        }
        self.resume_attack_at(2, attacker, player);
        let ghost queued = self@;
        let opened = self.open_before_damage_window(attacker, target, host);
        proof {
            assert(Duel::window_opened(queued, self@, EVENT_PRE_DAMAGE_CALCULATION, opened));
            lemma_same_grows(v0, v0);
            lemma_prefix_push(v0.stack, Processor::Attack { step: 2, attacker, player });
            if self@.stack.len() > queued.stack.len() {
                lemma_prefix_push(queued.stack, self@.stack.last());
            } else {
                lemma_prefix_refl(queued.stack);
            }
            lemma_prefix_trans(v0.stack, queued.stack, self@.stack);
        }
    }

    /// A declared attack in progress.
    /// - Step 0: with opponent monsters to target, the target prompt
    ///   (`MSG_SELECT_ATTACK_TARGET`) is sent and the task waits; otherwise
    ///   it is a direct attack, declared at once.
    /// - Step 1: the answer's first byte picks the target among the
    ///   opponent's monsters (none if out of range: a direct attack).
    ///   Declaring an attack queues the attack's damage step and opens the
    ///   before-damage-calculation window.
    /// - Step 2: that window has closed; what was chained there resolves,
    ///   the stashed battle damage is dealt (none to a player protected from
    ///   battle damage), the battle's losers are destroyed, and the
    ///   after-damage-calculation window opens, with the battle's end queued
    ///   after it.
    /// - Step 3: the battle is over; what was chained there resolves, the
    ///   rules waiting on the end of a battle fire, and the Battle-Phase
    ///   menu is offered again.
    #[verifier::rlimit(40)]
    fn run_attack<H: ScriptHost>(&mut self, step: u16, attacker: CardId, player: usize, host: &mut H) -> (r: Option<
        Processor,
    >)
        requires
            old(self).wf(),
            Duel::sound(old(self)@),
            player < 2,
        ensures
            final(self).wf(),
            Duel::sound(final(self)@),
            grows(old(self)@, final(self)@),
            attack_ran(old(self)@, final(self)@, step, attacker, player, r),
            r matches Some(u) ==> step == 0 && u == (Processor::Attack { step: 1, attacker, player }),
    {
        let ghost v0 = self@;
        proof {
            lemma_same_grows(v0, v0);
        }
        if step == 0 {
            let targets = self.attack_targets(player);
            if targets.len() == 0 {
                self.declare_and_wait(attacker, None, player, host);
                return None;
            }
            self.emit(MSG_SELECT_ATTACK_TARGET);
            proof {
                lemma_prefix_push(v0.messages, MSG_SELECT_ATTACK_TARGET);
            }
            return Some(Processor::Attack { step: 1, attacker, player });
        }
        if step == 1 {
            let idx = self.response_byte(0, 0) as usize;
            let targets = self.attack_targets(player);
            let target = if idx < targets.len() {
                Some(targets[idx])
            } else {
                None
            };
            self.declare_and_wait(attacker, target, player, host);
            return None;
        }
        // What was chained in the window resolves first.
        if self.chain.len() > 0 {
            self.resolve_chain(host);
        }
        let ghost settled = self@;
        proof {
            assert(chain_settled(v0, settled));
        }
        self.window_timing = None;
        let ghost b = self@;
        proof {
            Duel::lemma_sound_keep(settled, self@);
            lemma_same_grows(v0, settled);
            lemma_same_grows(settled, self@);
            lemma_grows_trans(v0, settled, self@);
        }
        if step == 2 {
            match self.last_attack {
                Some((fighter, target)) => {
                    // A player protected from battle damage takes none.
                    let mut dmg = self.effect_ctx.pending_damage;
                    if !self.can_take_battle_damage(PLAYER_0) {
                        dmg[0] = 0;
                    }
                    if !self.can_take_battle_damage(PLAYER_1) {
                        dmg[1] = 0;
                    }
                    proof {
                        assert(dmg[0] == dealt(b, 0) && dmg[1] == dealt(b, 1));
                    }
                    self.apply_battle_damage(dmg);
                    let ghost damaged = self@;
                    proof {
                        Duel::lemma_sound_keep(b, damaged);
                        Duel::lemma_sound_battle_ready(damaged, fighter, target);
                    }
                    self.apply_battle_destruction(fighter, target);
                    proof {
                        assert(battle_losers(damaged, fighter, target).len() <= 2);
                        Duel::lemma_destroyed_all_sound(damaged, self@, battle_losers(damaged, fighter, target));
                        lemma_same_grows(b, b);
                        assert(grows(b, self@));
                    }
                },
                None => {},
            }
            let ghost fought = self@;
            self.effect_ctx.pending_damage = [0, 0];
            self.resume_attack_at(3, attacker, player);
            let ghost q = self@;
            proof {
                Duel::lemma_sound_keep(fought, DuelView { stack: fought.stack, ..self@ });
                lemma_prefix_push(fought.stack, Processor::Attack { step: 3, attacker, player });
                lemma_prefix_refl(fought.messages);
                lemma_prefix_refl(fought.turn_hist);
            }
            let opened = self.open_event_window(EVENT_POST_DAMAGE_CALCULATION, host);
            proof {
                if self@.stack.len() > q.stack.len() {
                    lemma_prefix_push(q.stack, self@.stack.last());
                } else {
                    lemma_prefix_refl(q.stack);
                }
                lemma_prefix_refl(q.messages);
                lemma_prefix_refl(q.turn_hist);
                lemma_grows_trans(fought, q, self@);
                lemma_grows_trans(v0, b, fought);
                lemma_grows_trans(v0, fought, self@);
                assert(Duel::window_opened(q, self@, EVENT_POST_DAMAGE_CALCULATION, opened));
                assert(Duel::window_opened(
                    queued(fought, Processor::Attack { step: 3, attacker, player }),
                    self@,
                    EVENT_POST_DAMAGE_CALCULATION,
                    opened,
                ));
                assert(battle_dealt(b, self@, attacker, player));
            }
            return None;
        }
        // The battle is over: its "end of battle" rules fire, and the
        // Battle-Phase menu is offered again.
        self.fire_subscriptions(EVENT_BATTLE_ENDED, host);
        let ghost fired = self@;
        self.reopen_battle_menu(player);
        proof {
            lemma_same_grows(b, fired);
            lemma_prefix_push(fired.stack, Processor::BattleCommand { step: 0, player });
            lemma_prefix_refl(fired.messages);
            lemma_prefix_refl(fired.turn_hist);
            lemma_grows_trans(b, fired, self@);
            lemma_grows_trans(v0, b, self@);
            assert(rules_fired(b, fired, EVENT_BATTLE_ENDED));
        }
        None
    }

    /// An optional trigger's yes/no prompt. Step 0 sends `MSG_SELECT_YESNO`
    /// and waits; then, if the answer's first byte is 1, the effect
    /// resolves with `player` as the activator, `card` as its own card and
    /// the firing event's details readable.
    fn run_optional_trigger<H: ScriptHost>(
        &mut self,
        step: u16,
        effect: usize,
        card: CardId,
        player: usize,
        event: EventSnapshot,
        host: &mut H,
    ) -> (r: Option<Processor>)
        requires
            old(self).wf(),
            Duel::sound(old(self)@),
            player < 2,
            effect < old(self)@.effects.len(),
        ensures
            final(self).wf(),
            Duel::sound(final(self)@),
            grows(old(self)@, final(self)@),
            optional_ran(old(self)@, final(self)@, step, effect, card, player, event, r),
    {
        let ghost v0 = self@;
        proof {
            lemma_same_grows(v0, v0);
        }
        if step == 0 {
            self.emit(MSG_SELECT_YESNO);
            proof {
                lemma_prefix_push(v0.messages, MSG_SELECT_YESNO);
            }
            return Some(Processor::OptionalTrigger { step: 1, effect, card, player, event });
        }
        if self.responses.len() > 0 && self.responses[0] == 1 {
            self.effect_ctx.activator = player;
            self.effect_ctx.self_card = Some(card);
            // The firing event's details are readable while it resolves.
            self.effect_ctx.event = event;
            let ghost set = self@;
            proof {
                Duel::lemma_sound_keep(v0, set);
            }
            let _ = self.resolve_effect(effect, host);
            proof {
                lemma_same_grows(v0, self@);
            }
        }
        None
    }

    /// A chain-response window for `player`. Step 0 records them as the
    /// responder, sends `MSG_SELECT_CHAIN` and waits. Then the answer:
    /// - pass: `player` has passed; if the other player has passed too the
    ///   window closes, otherwise it moves to them;
    /// - respond with the `index`-th of `player`'s response options (see
    ///   [`Duel::response_options_for`]): it is activated (an out-of-range
    ///   pick activates nothing), and the window moves to the other player;
    /// - anything else (or no answer) closes the window.
    #[verifier::rlimit(40)]
    fn run_chain_response<H: ScriptHost>(&mut self, step: usize, player: usize, host: &mut H) -> (r: Option<Processor>)
        requires
            old(self).wf(),
            Duel::sound(old(self)@),
            player < 2,
        ensures
            final(self).wf(),
            Duel::sound(final(self)@),
            grows(old(self)@, final(self)@),
            response_ran(old(self)@, final(self)@, step, player, r),
            r matches Some(u) ==> step == 0 && u == (Processor::ChainResponse { step: 1, player }),
    {
        let ghost v0 = self@;
        proof {
            lemma_same_grows(v0, v0);
        }
        if step == 0 {
            // Whose window this is.
            self.responder = player;
            proof {
                Duel::lemma_sound_keep(v0, self@);
            }
            self.emit(MSG_SELECT_CHAIN);
            proof {
                lemma_prefix_push(v0.messages, MSG_SELECT_CHAIN);
            }
            return Some(Processor::ChainResponse { step: 1, player });
        }
        if self.responses.len() == 0 {
            return None;
        }
        let response = self.responses[0];
        let other = 1 - player;
        if response == CMD_PASS {
            self.passes[player] = true;
            let ghost passed = self@;
            proof {
                Duel::lemma_sound_keep(v0, passed);
                lemma_same_grows(v0, passed);
            }
            proof {
                assert(passed == DuelView { passes: v0.passes.update(player as int, true), ..v0 });
            }
            if !self.passes[other] {
                self.push_task(Processor::ChainResponse { step: 0, player: other });
                proof {
                    lemma_prefix_push(passed.stack, Processor::ChainResponse { step: 0, player: other });
                    lemma_prefix_refl(passed.messages);
                    lemma_prefix_refl(passed.turn_hist);
                    lemma_grows_trans(v0, passed, self@);
                }
            }
            None
        } else if response == CMD_RESPONSE {
            // Works for a chain (spell-speed gated) or a timing window with
            // no chain yet (e.g. damage calculation).
            let options = self.response_options_for(player, host);
            let ghost asked = self@;
            proof {
                Duel::lemma_sound_keep(v0, asked);
                lemma_same_grows(v0, asked);
            }
            proof {
                assert(options_offered(v0, asked, player, options@));
            }
            if self.responses.len() > 1 {
                let pick = self.responses[1] as usize;
                if pick < options.len() {
                    let (card, slot) = options[pick];
                    let res = self.activate(card, slot, player, host);
                    proof {
                        lemma_quiet_grows(asked, self@);
                        lemma_grows_trans(v0, asked, self@);
                        assert(activated(asked, self@, options@[pick_of(v0)].0, options@[pick_of(v0)].1, player, res));
                    }
                }
            }
            let ghost acted = self@;
            proof {
                assert(chose(asked, acted, options@, pick_of(v0), player));
            }
            self.push_task(Processor::ChainResponse { step: 0, player: other });
            proof {
                lemma_prefix_push(acted.stack, Processor::ChainResponse { step: 0, player: other });
                lemma_prefix_refl(acted.messages);
                lemma_prefix_refl(acted.turn_hist);
                lemma_grows_trans(v0, acted, self@);
            }
            None
        } else {
            None
        }
    }
}

} // verus!
