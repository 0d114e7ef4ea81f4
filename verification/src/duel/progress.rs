//! Why the driver loop always stops: the work left before a player is next
//! asked something, which every driver step that runs on lowers.

use vstd::prelude::*;

use crate::constants::{CMD_ACTIVATE, CMD_ATTACK, CMD_NEXT_PHASE, CMD_PASS, CMD_RESPONSE, MSG_SELECT_CARD};
use crate::effect::EffectContext;
use crate::event::{EventSnapshot, EVENT_BATTLE_ENDED, EVENT_POST_DAMAGE_CALCULATION, EVENT_PRE_DAMAGE_CALCULATION};
use crate::ids::CardId;
use crate::processor::{DuelStatus, Processor};
use crate::script::ScriptError;
use crate::zone::Zone;

use super::battle::{battle_losers, destroyed_all};
use super::board::{after_lp_loss, drew_cards};
use super::driver::{
    activate_ran, after_activation, answer, attack_ran, battle_dealt, chain_settled, chose, dealt, declared,
    idle_ran, lemma_destroyed_all_turns, phase_msg, pick_of, picks, queued, response_ran, resumed_or_not, sent,
    stepped, task_ran, top_taken, turn_opened, turn_ran,
};
use super::scripting::{
    activated, events_done, events_processed, main_offers, offers_approved, options_offered,
    optional_prompt, picked_from, resumed, rules_fired, turn_player, with_stage,
};
use super::{Duel, DuelView};

verus! {

/// Whether running task `u` is sure to stop and ask a player: a card
/// prompt, a menu, a yes/no prompt or a response window at its first step.
pub open spec fn asks_next(u: Processor) -> bool {
    match u {
        Processor::SelectCard { step } => step == 0,
        Processor::IdleCommand { step, .. } => step == 0,
        Processor::BattleCommand { step, .. } => step == 0,
        Processor::OptionalTrigger { step, .. } => step == 0,
        Processor::ChainResponse { step, .. } => step == 0,
        _ => false,
    }
}

/// A bound on the driver steps that task `u`, and the tasks it queues,
/// run on before a question is sure to be asked.
pub open spec fn task_weight(u: Processor) -> nat {
    match u {
        Processor::Startup { step } => if step == 0 {
            6
        } else {
            5
        },
        Processor::Turn { step, .. } => if step == 6 {
            5
        } else if step < 3 {
            (4 - step) as nat
        } else {
            1
        },
        Processor::IdleCommand { .. } => 2,
        Processor::BattleCommand { .. } => 4,
        Processor::Attack { step, .. } => if step < 2 {
            3
        } else if step == 2 {
            2
        } else {
            1
        },
        _ => 1,
    }
}

/// The work left in task stack `s` before a question is sure to be asked:
/// the weights of its tasks from the top down to the first that asks.
pub open spec fn work_left(s: Seq<Processor>) -> nat
    decreases s.len(),
{
    if s.len() == 0 {
        0
    } else if asks_next(s.last()) {
        0
    } else {
        task_weight(s.last()) + work_left(s.drop_last())
    }
}

/// The task a step leaves to resume, as a stack of at most one task.
pub open spec fn resumes(r: Option<Processor>) -> Seq<Processor> {
    match r {
        Some(u) => seq![u],
        None => Seq::empty(),
    }
}

/// The tasks `w` has on top of `v`'s.
pub open spec fn added(v: DuelView, w: DuelView) -> Seq<Processor> {
    w.stack.skip(v.stack.len() as int)
}

/// `w` keeps `v`'s tasks and only adds on top of them.
pub open spec fn extends(v: DuelView, w: DuelView) -> bool {
    v.stack.len() <= w.stack.len() && w.stack == v.stack + added(v, w)
}

/// Pushing a task: the work is nothing if it asks, else its weight on top.
pub proof fn lemma_work_push(s: Seq<Processor>, x: Processor)
    ensures
        work_left(s.push(x)) == if asks_next(x) {
            0
        } else {
            task_weight(x) + work_left(s)
        },
{
    assert(s.push(x).drop_last() =~= s);
}

/// The work of a stack is at most that of its lower part plus that of
/// its upper part.
pub proof fn lemma_work_concat(a: Seq<Processor>, b: Seq<Processor>)
    ensures
        work_left(a + b) <= work_left(a) + work_left(b),
    decreases b.len(),
{
    if b.len() == 0 {
        assert(a + b =~= a);
    } else {
        assert((a + b).drop_last() =~= a + b.drop_last());
        assert((a + b).last() == b.last());
        lemma_work_concat(a, b.drop_last());
    }
}

/// A stack whose top asks has no work left.
proof fn lemma_work_asking_top(a: Seq<Processor>, b: Seq<Processor>)
    requires
        b.len() > 0,
        asks_next(b.last()),
    ensures
        work_left(a + b) == 0,
{
    assert((a + b).last() == b.last());
}

/// `w` is `v` with the tasks `t` on top.
proof fn lemma_on_top(v: DuelView, w: DuelView, t: Seq<Processor>)
    requires
        w.stack =~= v.stack + t,
    ensures
        extends(v, w),
        added(v, w) == t,
{
    assert(w.stack.skip(v.stack.len() as int) =~= t);
}

/// What a declared attack queues: its damage step, maybe under a response
/// window.
proof fn lemma_declared_work(v: DuelView, w: DuelView, attacker: CardId, target: Option<CardId>, player: usize)
    requires
        declared(v, w, attacker, target, player),
    ensures
        extends(v, w),
        work_left(added(v, w)) <= 2,
{
    let d = DuelView { last_attack: Some((attacker, target)), attacked: v.attacked.insert(attacker.key), ..v };
    let a2 = Processor::Attack { step: 2, attacker, player };
    let opened = choose|opened: bool|
        #![trigger Duel::window_opened(queued(d, a2), w, EVENT_PRE_DAMAGE_CALCULATION, opened)]
        Duel::window_opened(queued(d, a2), w, EVENT_PRE_DAMAGE_CALCULATION, opened);
    lemma_work_push(Seq::empty(), a2);
    if opened {
        lemma_on_top(v, w, seq![a2, w.stack.last()]);
        lemma_work_asking_top(Seq::empty(), seq![a2, w.stack.last()]);
        assert(Seq::<Processor>::empty() + seq![a2, w.stack.last()] =~= seq![a2, w.stack.last()]);
    } else {
        lemma_on_top(v, w, seq![a2]);
        assert(Seq::<Processor>::empty().push(a2) =~= seq![a2]);
    }
}

/// [`lemma_task_work`] for a task of kind `Turn`.
proof fn lemma_turn_work(v: DuelView, w: DuelView, step: u16, player: usize, r: Option<Processor>)
    requires
        turn_ran(v, w, step, player, r),
        step < 7,
        r matches Some(u) ==> !u.spec_needs_answer(),
    ensures
        extends(v, w),
        work_left(resumes(r) + added(v, w)) < task_weight(Processor::Turn { step, player }),
{
    let e = Seq::<Processor>::empty();
    let next = Processor::Turn { step: (step + 1) as u16, player };
    if step == 3 || step == 5 {
        let q = Processor::IdleCommand { step: 0, player };
        lemma_on_top(v, w, seq![q]);
        lemma_work_asking_top(resumes(r), seq![q]);
    } else if step == 4 {
        let q = Processor::BattleCommand { step: 0, player };
        lemma_on_top(v, w, seq![q]);
        lemma_work_asking_top(resumes(r), seq![q]);
    } else if step == 6 {
        let m = sent(v, phase_msg(step as int));
        let t0 = Processor::Turn { step: 0, player: (1 - player) as usize };
        if m.turn_hist.len() < m.max_turns {
            lemma_on_top(v, w, seq![t0]);
            assert(resumes(r) + seq![t0] =~= e.push(t0));
            lemma_work_push(e, t0);
        } else {
            lemma_on_top(v, w, e);
            assert(resumes(r) + e =~= e);
        }
    } else {
        let o = if step == 0 {
            turn_opened(v, player)
        } else {
            v
        };
        let m = sent(o, phase_msg(step as int));
        if step == 1 && m.turn_hist.len() > 1 {
            let drawn = choose|drawn: Seq<CardId>|
                #![trigger drew_cards(m, w, player, 1, drawn)]
                drew_cards(m, w, player, 1, drawn);
            assert(w.stack == m.stack);
        }
        lemma_on_top(v, w, e);
        assert(resumes(r) + e =~= e.push(next));
        lemma_work_push(e, next);
    }
}

/// [`lemma_task_work`] for a task of kind `IdleCommand`.
proof fn lemma_idle_command_work(v: DuelView, w: DuelView, step: u16, player: usize, r: Option<Processor>)
    requires
        idle_ran(v, w, step, player, r),
        step != 0,
        r matches Some(u) ==> !u.spec_needs_answer(),
    ensures
        extends(v, w),
        work_left(resumes(r) + added(v, w)) < task_weight(Processor::IdleCommand { step, player }),
{
    let e = Seq::<Processor>::empty();
    let command = answer(v, 0, CMD_NEXT_PHASE);
    let index = answer(v, 1, 0) as int;
    if command == CMD_ACTIVATE {
        let offered = choose|offered: Seq<(CardId, usize)>|
            #![trigger picked_from(offered, main_offers(v, player))]
            picked_from(offered, main_offers(v, player)) && offers_approved(
                v,
                with_stage(v, w),
                main_offers(v, player),
                player,
                true,
                offered,
            ) && w == if index < offered.len() {
                queued(
                    with_stage(v, w),
                    Processor::Activate { step: 0, card: offered[index].0, slot: offered[index].1, player },
                )
            } else {
                with_stage(v, w)
            };
        if index < offered.len() {
            let act = Processor::Activate { step: 0, card: offered[index].0, slot: offered[index].1, player };
            lemma_on_top(v, w, seq![act]);
            assert(resumes(r) + seq![act] =~= e.push(act));
            lemma_work_push(e, act);
        } else {
            lemma_on_top(v, w, e);
        }
    } else {
        lemma_on_top(v, w, e);
    }
}

/// [`lemma_task_work`] for a task of kind `Activate`.
proof fn lemma_activate_work(v: DuelView, w: DuelView, step: u16, card: CardId, slot: usize, player: usize, r: Option<Processor>)
    requires
        activate_ran(v, w, step, card, slot, player, r),
        r matches Some(u) ==> !u.spec_needs_answer(),
    ensures
        extends(v, w),
        work_left(resumes(r) + added(v, w)) < task_weight(Processor::Activate { step, card, slot, player }),
{
    let after = after_activation(player);
    if step == 0 {
        let (a, res) = choose|a: DuelView, res: Result<DuelStatus, ScriptError>|
            #![trigger activated(v, a, card, slot, player, res)]
            activated(v, a, card, slot, player, res) && if res == Ok::<DuelStatus, ScriptError>(
                DuelStatus::Awaiting,
            ) {
                r == Some(Processor::Activate { step: 1, card, slot, player }) && w == sent(
                    a,
                    MSG_SELECT_CARD,
                )
            } else {
                r is None && w == (DuelView { stack: a.stack + after_activation(player), ..a })
            };
        lemma_on_top(v, w, after);
    } else {
        let (a, b) = choose|a: DuelView, b: DuelView|
            #![trigger resumed_or_not(a, b)]
            {
                &&& a == (DuelView { ctx: EffectContext { targets: a.ctx.targets, ..v.ctx }, ..v })
                &&& a.ctx.targets@ == picks(v)
                &&& resumed_or_not(a, b)
                &&& w == (DuelView { stack: b.stack + after_activation(player), ..b })
            };
        if a.pending is Some {
            let res = choose|res: Result<DuelStatus, ScriptError>| #![trigger resumed(a, b, res)] resumed(a, b, res);
            assert(b.stack == a.stack);
        }
        lemma_on_top(v, w, after);
    }
    lemma_work_asking_top(resumes(r), after);
}

/// [`lemma_task_work`] for a task of kind `Attack`.
proof fn lemma_attack_work(v: DuelView, w: DuelView, step: u16, attacker: CardId, player: usize, r: Option<Processor>)
    requires
        attack_ran(v, w, step, attacker, player, r),
        r matches Some(u) ==> !u.spec_needs_answer(),
    ensures
        extends(v, w),
        work_left(resumes(r) + added(v, w)) < task_weight(Processor::Attack { step, attacker, player }),
{
    let e = Seq::<Processor>::empty();
    let targets = v.field.cards_at(((player + 1) % 2) as usize, Zone::MonsterZone);
    if step < 2 {
        let idx = answer(v, 0, 0) as int;
        let target = if step == 0 || idx >= targets.len() {
            None
        } else {
            Some(targets[idx])
        };
        lemma_declared_work(v, w, attacker, target, player);
        assert(resumes(r) + added(v, w) =~= added(v, w));
    } else {
        let a = choose|a: DuelView|
            #![trigger chain_settled(v, a)]
            chain_settled(v, a) && {
                let b = DuelView { window_timing: None, ..a };
                if step == 2 {
                    battle_dealt(b, w, attacker, player)
                } else {
                    exists|f: DuelView|
                        #![trigger rules_fired(b, f, EVENT_BATTLE_ENDED)]
                        rules_fired(b, f, EVENT_BATTLE_ENDED) && w == queued(
                            f,
                            Processor::BattleCommand { step: 0, player },
                        )
                }
            };
        let b = DuelView { window_timing: None, ..a };
        assert(a.stack == v.stack);
        if step == 2 {
            let a3 = Processor::Attack { step: 3, attacker, player };
            let (c, opened) = choose|c: DuelView, opened: bool|
                #![trigger Duel::window_opened(queued(c, a3), w, EVENT_POST_DAMAGE_CALCULATION, opened)]
                {
                    &&& match b.last_attack {
                        Some((x, t)) => {
                            let hurt = after_lp_loss(after_lp_loss(b, 0, dealt(b, 0)), 1, dealt(b, 1));
                            destroyed_all(hurt, c, battle_losers(hurt, x, t))
                        },
                        None => c == b,
                    }
                    &&& Duel::window_opened(queued(c, a3), w, EVENT_POST_DAMAGE_CALCULATION, opened)
                };
            if let Some((x, t)) = b.last_attack {
                let hurt = after_lp_loss(after_lp_loss(b, 0, dealt(b, 0)), 1, dealt(b, 1));
                lemma_destroyed_all_turns(hurt, c, battle_losers(hurt, x, t));
            }
            assert(c.stack == v.stack);
            lemma_work_push(e, a3);
            if opened {
                lemma_on_top(v, w, seq![a3, w.stack.last()]);
                lemma_work_asking_top(resumes(r), seq![a3, w.stack.last()]);
            } else {
                lemma_on_top(v, w, seq![a3]);
                assert(resumes(r) + seq![a3] =~= e.push(a3));
            }
        } else {
            let f = choose|f: DuelView|
                #![trigger rules_fired(b, f, EVENT_BATTLE_ENDED)]
                rules_fired(b, f, EVENT_BATTLE_ENDED) && w == queued(
                    f,
                    Processor::BattleCommand { step: 0, player },
                );
            let q = Processor::BattleCommand { step: 0, player };
            lemma_on_top(v, w, seq![q]);
            lemma_work_asking_top(resumes(r), seq![q]);
        }
    }
}

/// [`lemma_task_work`] for a task of kind `ChainResponse`.
proof fn lemma_chain_response_work(v: DuelView, w: DuelView, step: usize, player: usize, r: Option<Processor>)
    requires
        response_ran(v, w, step, player, r),
        step != 0,
        r matches Some(u) ==> !u.spec_needs_answer(),
    ensures
        extends(v, w),
        work_left(resumes(r) + added(v, w)) < task_weight(Processor::ChainResponse { step, player }),
{
    let e = Seq::<Processor>::empty();
    let other = (1 - player) as usize;
    let q = Processor::ChainResponse { step: 0, player: other };
    if v.responses.len() > 0 && v.responses[0] == CMD_PASS {
        if v.passes[other as int] {
            lemma_on_top(v, w, e);
        } else {
            lemma_on_top(v, w, seq![q]);
            lemma_work_asking_top(resumes(r), seq![q]);
        }
    } else if v.responses.len() > 0 && v.responses[0] == CMD_RESPONSE {
        let (a, offered, b) = choose|a: DuelView, offered: Seq<(CardId, usize)>, b: DuelView|
            #![trigger options_offered(v, a, player, offered), chose(a, b, offered, pick_of(v), player)]
            {
                &&& options_offered(v, a, player, offered)
                &&& chose(a, b, offered, pick_of(v), player)
                &&& w == queued(b, Processor::ChainResponse { step: 0, player: other })
            };
        if 0 <= pick_of(v) < offered.len() {
            let res = choose|res: Result<DuelStatus, ScriptError>|
                #![trigger activated(a, b, offered[pick_of(v)].0, offered[pick_of(v)].1, player, res)]
                activated(a, b, offered[pick_of(v)].0, offered[pick_of(v)].1, player, res);
        }
        assert(b.stack == v.stack);
        lemma_on_top(v, w, seq![q]);
        lemma_work_asking_top(resumes(r), seq![q]);
    } else {
        lemma_on_top(v, w, e);
    }
}

/// What a task that runs on (finished, or resuming a task that does not
/// ask) does to the stack: it only adds on top, and the work of what
/// replaces it is below its weight.
pub proof fn lemma_task_work(v: DuelView, w: DuelView, unit: Processor, r: Option<Processor>)
    requires
        task_ran(v, w, unit, r),
        Duel::unit_ok(unit, v.effects.len()),
        !asks_next(unit),
        r matches Some(u) ==> !u.spec_needs_answer(),
    ensures
        extends(v, w),
        work_left(resumes(r) + added(v, w)) < task_weight(unit),
{
    let e = Seq::<Processor>::empty();
    match unit {
        Processor::Startup { step } => {
            if step == 0 {
                lemma_on_top(v, w, e);
                assert(resumes(r) + e =~= e.push(r->0));
                lemma_work_push(e, r->0);
            } else {
                let t0 = Processor::Turn { step: 0, player: 0 };
                lemma_on_top(v, w, seq![t0]);
                assert(resumes(r) + seq![t0] =~= e.push(t0));
                lemma_work_push(e, t0);
            }
        },
        Processor::Turn { step, player } => lemma_turn_work(v, w, step, player, r),
        Processor::SelectCard { step } => {
            lemma_on_top(v, w, e);
        },
        Processor::IdleCommand { step, player } => lemma_idle_command_work(v, w, step, player, r),
        Processor::Activate { step, card, slot, player } => lemma_activate_work(v, w, step, card, slot, player, r),
        Processor::BattleCommand { step, player } => {
            let command = answer(v, 0, CMD_NEXT_PHASE);
            let index = answer(v, 1, 0) as int;
            let ready = v.field.cards_at(player, Zone::MonsterZone).filter(|c: CardId| Duel::can_attack(v, c));
            if command == CMD_ATTACK && index < ready.len() {
                let att = Processor::Attack { step: 0, attacker: ready[index], player };
                lemma_on_top(v, w, seq![att]);
                assert(resumes(r) + seq![att] =~= e.push(att));
                lemma_work_push(e, att);
            } else {
                lemma_on_top(v, w, e);
            }
        },
        Processor::Attack { step, attacker, player } => lemma_attack_work(v, w, step, attacker, player, r),
        Processor::OptionalTrigger { step, effect, card, player, event } => {
            lemma_on_top(v, w, e);
        },
        Processor::ResolveChain { .. } => {
            lemma_on_top(v, w, e);
        },
        Processor::ChainResponse { step, player } => lemma_chain_response_work(v, w, step, player, r),
    }
}

/// Processing events adds nothing, or adds tasks whose top asks.
proof fn lemma_events_work(v: DuelView, w: DuelView, below: Seq<Processor>)
    requires
        events_done(v, w),
    ensures
        extends(v, w),
        work_left(below + added(v, w)) <= work_left(below),
{
    let (fired, prompts, links) = choose|
        fired: Seq<(usize, CardId, usize, EventSnapshot)>,
        prompts: Seq<Processor>,
        links: Seq<crate::chain::ChainLink>,
    |
        #![trigger events_processed(v, w, fired, prompts, links)]
        events_processed(v, w, fired, prompts, links);
    let tp = turn_player(v);
    let top = if links.len() > 0 {
        seq![Processor::ResolveChain { step: 0 }, Processor::ChainResponse { step: 0, player: (1 - tp) as usize }]
    } else {
        Seq::empty()
    };
    let t = prompts + top;
    assert(w.stack =~= v.stack + t);
    lemma_on_top(v, w, t);
    if t.len() == 0 {
        assert(below + t =~= below);
    } else {
        if links.len() == 0 {
            assert(t.last() == prompts.last());
            assert(optional_prompt(v, prompts[prompts.len() - 1]));
        }
        lemma_work_asking_top(below, t);
    }
}

/// Each driver step that runs on lowers the work left before a question.
pub proof fn lemma_step_work(v: DuelView, w: DuelView)
    requires
        stepped(v, w, DuelStatus::Continue),
        Duel::sound(v),
    ensures
        work_left(w.stack) < work_left(v.stack),
{
    let (ran, r, ev) = choose|ran: DuelView, r: Option<Processor>, ev: DuelView|
        #![trigger task_ran(top_taken(v), ran, v.stack.last(), r), events_done(ran, ev)]
        {
            &&& v.result is None
            &&& v.stack.len() > 0
            &&& task_ran(top_taken(v), ran, v.stack.last(), r)
            &&& events_done(ran, ev)
            &&& w == match r {
                Some(u) => DuelView { stack: ev.stack.insert(v.stack.len() - 1, u), ..ev },
                None => ev,
            }
            &&& DuelStatus::Continue == match r {
                Some(u) => if u.spec_needs_answer() {
                    DuelStatus::Awaiting
                } else {
                    DuelStatus::Continue
                },
                None => DuelStatus::Continue,
            }
        };
    let t = top_taken(v);
    let unit = v.stack.last();
    assert(v.stack[v.stack.len() - 1] == unit);
    assert(Duel::unit_ok(unit, v.effects.len()));
    assert(!asks_next(unit));
    lemma_task_work(t, ran, unit, r);
    let rest = t.stack;
    let mid = resumes(r) + added(t, ran);
    lemma_events_work(ran, ev, rest + mid);
    let top = added(ran, ev);
    assert(w.stack =~= (rest + mid) + top) by {
        assert(ev.stack =~= rest + added(t, ran) + top);
    }
    lemma_work_concat(rest, mid);
    assert(v.stack =~= rest.push(unit));
    lemma_work_push(rest, unit);
}

} // verus!
