//! Effects on the duel's side: the effect registry, activation (condition,
//! target, cost), applying what a resolved effect recorded, the chain, and
//! the event queue. The stages themselves run in a [`ScriptHost`].

use vstd::prelude::*;

use crate::arena::probe_key;
use crate::card::{Card, CardData};
use crate::chain::ChainLink;
use crate::effect::{spell_speed, speed, CostType, EffectContext, EffectInfo, EffectKind, Subscription};
use crate::event::{DuelEvent, EventSnapshot};
use crate::ids::CardId;
use crate::modifiers::{Modifier, ModifierType};
use crate::processor::{DuelStatus, Processor};
use crate::reason::{Reason, REASON_EFFECT};
use crate::script::{ran_through, HostCall, ScriptError, ScriptHost, Stage};
use crate::zone::Zone;

use super::board::{after_lp_loss, keeps, same_but_modifiers};
use super::{Duel, DuelView};

verus! {

/// The registry indices of the effects belonging to card code `code`, in
/// registration order (an effect's slot on its card is its place here).
pub open spec fn code_indices(effects: Seq<EffectInfo>, code: u32) -> Seq<int>
    decreases effects.len(),
{
    if effects.len() == 0 {
        Seq::empty()
    } else {
        let rest = code_indices(effects.drop_last(), code);
        if effects.last().code == code {
            rest.push(effects.len() - 1)
        } else {
            rest
        }
    }
}

/// Whether registered effect `e` is of kind `want` and, when `event` names
/// a timing, keyed to it.
pub open spec fn fits(e: EffectInfo, want: EffectKind, event: Option<u32>) -> bool {
    e.kind == want && match event {
        Some(t) => e.event == t,
        None => true,
    }
}

/// The slots (places among `code`'s effects) of `code`'s effects that fit
/// `want` and `event`, in order.
pub open spec fn kind_slots(effects: Seq<EffectInfo>, code: u32, want: EffectKind, event: Option<u32>) -> Seq<usize>
    decreases effects.len(),
{
    if effects.len() == 0 {
        Seq::empty()
    } else {
        let rest = kind_slots(effects.drop_last(), code, want, event);
        let e = effects.last();
        if e.code == code && fits(e, want, event) {
            rest.push(code_indices(effects.drop_last(), code).len() as usize)
        } else {
            rest
        }
    }
}

/// The `(card, slot)` offers of one card: its effects that fit `want` and
/// `event`, in slot order (none if it is not in the arena).
pub open spec fn card_offers(v: DuelView, card: CardId, want: EffectKind, event: Option<u32>) -> Seq<(CardId, usize)> {
    match v.card(card) {
        Some(c) => kind_slots(v.effects, c.code, want, event).map_values(|s: usize| (card, s)),
        None => Seq::empty(),
    }
}

/// The offers of each of `cards` in turn.
pub open spec fn offers(v: DuelView, cards: Seq<CardId>, want: EffectKind, event: Option<u32>) -> Seq<(CardId, usize)>
    decreases cards.len(),
{
    if cards.len() == 0 {
        Seq::empty()
    } else {
        offers(v, cards.drop_last(), want, event) + card_offers(v, cards.last(), want, event)
    }
}

/// The items of `s` whose flag in `mask` is set, in order.
pub open spec fn masked<T>(s: Seq<T>, mask: Seq<bool>) -> Seq<T>
    decreases s.len(),
{
    if s.len() == 0 || mask.len() == 0 {
        Seq::empty()
    } else {
        let rest = masked(s.drop_last(), mask.drop_last());
        if mask.last() {
            rest.push(s.last())
        } else {
            rest
        }
    }
}

/// `r` keeps some of the items of `s`, in order.
pub open spec fn picked_from<T>(r: Seq<T>, s: Seq<T>) -> bool {
    exists|mask: Seq<bool>| #![trigger masked(s, mask)] mask.len() == s.len() && r == masked(s, mask)
}

/// What `player` may activate in the Main Phase, before any condition or
/// target check: `Activate` effects of the cards in their hand, then
/// `Ignition` effects of the monsters they control.
pub open spec fn main_offers(v: DuelView, player: usize) -> Seq<(CardId, usize)> {
    offers(v, v.field.hand(player as int), EffectKind::Activate, None)
        + offers(v, v.field.cards_at(player, Zone::MonsterZone), EffectKind::Ignition, None)
}

/// Whether `card`'s own activation is fast enough to respond to a top link
/// of speed `top`: its speed is at least 2 and at least `top`.
pub open spec fn fast_enough(v: DuelView, card: CardId, top: u8) -> bool {
    match v.card(card) {
        Some(c) => {
            let s = speed(EffectKind::Activate, c.data.card_type, c.data.spell_type, c.data.trap_type);
            s >= 2 && s >= top
        },
        None => false,
    }
}

/// What `player` may activate in response to a top link of speed `top`,
/// before any condition or target check: `Activate` effects of the cards in
/// their hand that are fast enough.
pub open spec fn chain_offers(v: DuelView, player: usize, top: u8) -> Seq<(CardId, usize)> {
    offers(v, v.field.hand(player as int).filter(|c: CardId| fast_enough(v, c, top)), EffectKind::Activate, None)
}

/// What `player` may activate at the timing window `timing` with no chain,
/// before any condition check: `Quick` effects keyed to it, of the cards in
/// their hand.
pub open spec fn timed_offers(v: DuelView, player: usize, timing: u32) -> Seq<(CardId, usize)> {
    offers(v, v.field.hand(player as int), EffectKind::Quick, Some(timing))
}

/// Every item kept by a mask was in the sequence.
pub proof fn lemma_masked_in<T>(s: Seq<T>, mask: Seq<bool>)
    ensures
        forall|i: int| 0 <= i < masked(s, mask).len() ==> s.contains(#[trigger] masked(s, mask)[i]),
    decreases s.len(),
{
    if s.len() > 0 && mask.len() > 0 {
        lemma_masked_in(s.drop_last(), mask.drop_last());
        let rest = masked(s.drop_last(), mask.drop_last());
        assert forall|i: int| 0 <= i < masked(s, mask).len() implies s.contains(#[trigger] masked(s, mask)[i]) by {
            if i < rest.len() {
                let x = rest[i];
                assert(s.drop_last().contains(x));
                let k = choose|k: int| 0 <= k < s.drop_last().len() && s.drop_last()[k] == x;
                assert(s[k] == x);
            } else {
                assert(s[s.len() - 1] == s.last());
            }
        }
    }
}

/// Every offer is of one of the cards offered from.
pub proof fn lemma_offers_cards(v: DuelView, cards: Seq<CardId>, want: EffectKind, event: Option<u32>)
    ensures
        forall|o: (CardId, usize)| #[trigger] offers(v, cards, want, event).contains(o) ==> cards.contains(o.0),
    decreases cards.len(),
{
    if cards.len() > 0 {
        lemma_offers_cards(v, cards.drop_last(), want, event);
        let rest = offers(v, cards.drop_last(), want, event);
        let mine = card_offers(v, cards.last(), want, event);
        assert forall|o: (CardId, usize)| #[trigger] offers(v, cards, want, event).contains(o) implies cards.contains(o.0) by {
            let k = choose|k: int| 0 <= k < offers(v, cards, want, event).len() && offers(v, cards, want, event)[k] == o;
            if k < rest.len() {
                assert(rest[k] == o);
                assert(rest.contains(o));
                assert(cards.drop_last().contains(o.0));
                let j = choose|j: int| 0 <= j < cards.drop_last().len() && cards.drop_last()[j] == o.0;
                assert(cards[j] == o.0);
            } else {
                assert(mine[k - rest.len()] == o);
                assert(o.0 == cards.last());
                assert(cards[cards.len() - 1] == o.0);
            }
        }
    }
}

/// `w` is `s` after `player` committed to activating `card`'s registered
/// effect `idx`, its `cost` stage having declared `costs`: each cost is
/// paid, in order; then the card of a Spell/Trap activation (an `Activate`
/// effect) moves to the Spell & Trap Zone.
pub open spec fn activation_paid(
    s: DuelView,
    w: DuelView,
    card: CardId,
    idx: usize,
    player: usize,
    costs: Seq<CostType>,
) -> bool {
    exists|p: DuelView|
        #![trigger costs_applied(s, p, costs, player)]
        {
            &&& costs_applied(s, p, costs, player)
            &&& if s.effects[idx as int].kind == EffectKind::Activate {
                send_step(p, w, card, Zone::SpellTrapZone)
            } else {
                w == p
            }
        }
}

/// The effect context an activation's stages start from: `c` with `player`
/// as the activator and `card` as the effect's own card.
pub open spec fn activation_ctx(c: EffectContext, card: CardId, player: usize) -> EffectContext {
    EffectContext { activator: player, self_card: Some(card), ..c }
}

/// The last part of an activation (see [`activated`]): the `cost` stage
/// ran as host call `cst`; on an error that is the outcome; otherwise,
/// unless a declared cost is unpayable (rejected, nothing paid), the costs
/// are paid and the activation freezes on its selection (`asks`) or goes on
/// the chain against the targets in the context.
pub open spec fn committed(
    v: DuelView,
    w: DuelView,
    card: CardId,
    idx: usize,
    player: usize,
    asks: bool,
    cst: HostCall,
    r: Result<DuelStatus, ScriptError>,
) -> bool {
    match cst.answer {
        Err(e) => r == Err::<DuelStatus, ScriptError>(e) && w == with_stage(v, w) && w.ctx == cst.returned,
        Ok(_) => {
            let costs = cst.returned.costs@;
            &&& w.ctx == (EffectContext { costs: w.ctx.costs, ..cst.returned })
            &&& w.ctx.costs@.len() == 0
            &&& if !all_payable(v, costs, player) {
                r == Ok::<DuelStatus, ScriptError>(DuelStatus::End) && w == with_stage(v, w)
            } else if asks {
                &&& r == Ok::<DuelStatus, ScriptError>(DuelStatus::Awaiting)
                &&& exists|q: DuelView|
                    #![trigger activation_paid(with_stage(v, w), q, card, idx, player, costs)]
                    activation_paid(with_stage(v, w), q, card, idx, player, costs) && w == (DuelView {
                        pending: Some((idx, card)),
                        ..q
                    })
            } else {
                &&& r == Ok::<DuelStatus, ScriptError>(DuelStatus::End)
                &&& plain_link(w.chain.last(), idx, card, player, w.ctx.targets@)
                &&& exists|q: DuelView|
                    #![trigger activation_paid(with_stage(v, w), q, card, idx, player, costs)]
                    activation_paid(with_stage(v, w), q, card, idx, player, costs) && link_added(
                        q,
                        w,
                        w.chain.last(),
                    )
            }
        },
    }
}

/// `w` is `v` with `link` added on top of the chain and both players'
/// passes cleared (a new link reopens the response window).
pub open spec fn link_added(v: DuelView, w: DuelView, link: ChainLink) -> bool {
    w == (DuelView { chain: v.chain.push(link), passes: seq![false, false], ..v })
}

/// Whether `link` is the link of effect `idx` on `card` activated by
/// `player` against `targets`, fired by no event.
pub open spec fn plain_link(link: ChainLink, idx: usize, card: CardId, player: usize, targets: Seq<CardId>) -> bool {
    &&& link.effect_seq == idx
    &&& link.card == card
    &&& link.activator == player
    &&& link.targets@ == targets
    &&& link.event.is_none()
}

/// `v` with the chain's top link taken off.
pub open spec fn popped(v: DuelView) -> DuelView {
    DuelView { chain: v.chain.drop_last(), ..v }
}

/// `w` is `v` after effect `effect`'s `resolve` stage ran in the host,
/// handed `v`'s effect context: if it failed, only the context (the one it
/// handed back) and the record of calls changed; otherwise the intents it
/// recorded in the context it handed back were applied (see
/// [`intents_applied`]).
pub open spec fn stage_applied(v: DuelView, w: DuelView, effect: usize) -> bool {
    let call = w.calls.last();
    &&& called(v, w, Stage::Resolve, effect)
    &&& Duel::script_frame(v, w)
    &&& match call.answer {
        Err(_) => w == with_stage(v, w) && w.ctx == call.returned,
        Ok(_) => intents_applied(
            with_stage(v, w),
            w,
            call.returned.to_destroy@,
            call.returned.to_move@,
            call.returned.player_mods_to_add@,
            call.returned.mods_to_remove@,
            call.returned.subscriptions_to_add@,
        ),
    }
}

/// The effect context a chain link resolves with: `c` with the link's
/// activator, targets, card and firing event.
pub open spec fn link_ctx(c: EffectContext, link: ChainLink) -> EffectContext {
    EffectContext {
        activator: link.activator,
        targets: link.targets,
        self_card: Some(link.card),
        event: link.event,
        ..c
    }
}

/// `w` is `v` after its top chain link resolved: the link is taken off,
/// its effect's `resolve` stage ran with the link's activator, targets,
/// card and event in the context (see [`stage_applied`]), and the card of a
/// Spell/Trap activation then goes to the GY.
pub open spec fn link_resolved(v: DuelView, w: DuelView) -> bool {
    let link = v.chain.last();
    exists|r: DuelView|
        #![trigger stage_applied(with_ctx(popped(v), link_ctx(v.ctx, link)), r, link.effect_seq)]
        {
            &&& stage_applied(with_ctx(popped(v), link_ctx(v.ctx, link)), r, link.effect_seq)
            &&& if v.effects[link.effect_seq as int].kind == EffectKind::Activate {
                send_step(r, w, link.card, Zone::GY)
            } else {
                w == r
            }
        }
}

/// `w` is `v` after its top `n` chain links resolved one by one, the last
/// link first.
pub open spec fn chain_unwound(v: DuelView, w: DuelView, n: nat) -> bool
    decreases n,
{
    if n == 0 {
        w == v
    } else {
        exists|mid: DuelView| #![trigger link_resolved(mid, w)] chain_unwound(v, mid, (n - 1) as nat) && link_resolved(mid, w)
    }
}

/// Whether registered effect `idx` is a trigger of the card event `ev`
/// concerns, keyed to `ev`'s code.
pub open spec fn triggered_by(v: DuelView, idx: int, ev: DuelEvent) -> bool {
    &&& 0 <= idx < v.effects.len()
    &&& v.effects[idx].kind == EffectKind::Trigger
    &&& v.effects[idx].event == ev.code
    &&& v.card(ev.card) matches Some(c) && v.effects[idx].code == c.code
}

/// Whether `(effect, card, player, snapshot)` is a trigger fired by one of
/// the queued events of `v`: `effect` is triggered by it, `card` is the
/// card it concerns, `player` that card's controller, and `snapshot`
/// records the event.
pub open spec fn fired_by(v: DuelView, effect: usize, card: CardId, player: usize, snapshot: EventSnapshot) -> bool {
    exists|i: int|
        #![trigger v.events[i]]
        {
            &&& 0 <= i < v.events.len()
            &&& triggered_by(v, effect as int, v.events[i])
            &&& card == v.events[i].card
            &&& player == super::battle::controller(v, card)
            &&& snapshot.records(v.events[i])
        }
}

/// Whether a fired trigger is `player`'s.
pub open spec fn fired_for(player: usize) -> spec_fn((usize, CardId, usize, EventSnapshot)) -> bool {
    |f: (usize, CardId, usize, EventSnapshot)| f.2 == player
}

/// Whether a fired trigger is not `player`'s.
pub open spec fn fired_against(player: usize) -> spec_fn((usize, CardId, usize, EventSnapshot)) -> bool {
    |f: (usize, CardId, usize, EventSnapshot)| f.2 != player
}

/// SEGOC placement: the turn player's fired triggers first, then the
/// others, each group in the order fired.
pub open spec fn segoc(fired: Seq<(usize, CardId, usize, EventSnapshot)>, turn_player: usize) -> Seq<
    (usize, CardId, usize, EventSnapshot),
> {
    fired.filter(fired_for(turn_player)) + fired.filter(fired_against(turn_player))
}

/// Whether `l` is the chain link of the fired trigger `f`: its effect,
/// card, controller and event, with no targets.
pub open spec fn link_of(f: (usize, CardId, usize, EventSnapshot), l: ChainLink) -> bool {
    &&& l.effect_seq == f.0
    &&& l.card == f.1
    &&& l.activator == f.2
    &&& l.event == f.3
    &&& l.targets@.len() == 0
}

/// The player whose turn it is (player 0 before the first turn).
pub open spec fn turn_player(v: DuelView) -> usize {
    if v.turn_hist.len() > 0 {
        v.turn_hist.last()
    } else {
        0
    }
}

/// Whether `u` is the yes/no prompt of an optional trigger fired by one of
/// the queued events of `v`.
pub open spec fn optional_prompt(v: DuelView, u: Processor) -> bool {
    u matches Processor::OptionalTrigger { step, effect, card, player, event } && step == 0 && v.effects[
        effect as int
    ].optional && fired_by(v, effect, card, player, event)
}

/// `w` is `v` after its event queue was processed: `fired` are the
/// mandatory triggers the queued events fired, `prompts` the yes/no prompts
/// of the optional ones, and `links` the chain links built from `fired` in
/// SEGOC order; with any link, a chain resolution and the opponent's
/// response window are queued on top of the prompts.
pub open spec fn events_processed(
    v: DuelView,
    w: DuelView,
    fired: Seq<(usize, CardId, usize, EventSnapshot)>,
    prompts: Seq<Processor>,
    links: Seq<ChainLink>,
) -> bool {
    let tp = turn_player(v);
    let ord = segoc(fired, tp);
    &&& exists|keys: Seq<(int, int)>|
        #![trigger collected_upto(v, w, keys, fired, prompts, (v.events.len() as int, 0))]
        collected_upto(v, w, keys, fired, prompts, (v.events.len() as int, 0))
    &&& forall|i: int| 0 <= i < fired.len() ==> {
        let f = #[trigger] fired[i];
        fired_by(v, f.0, f.1, f.2, f.3) && !v.effects[f.0 as int].optional
    }
    &&& forall|i: int| 0 <= i < prompts.len() ==> optional_prompt(v, #[trigger] prompts[i])
    &&& links.len() == ord.len()
    &&& forall|i: int| 0 <= i < links.len() ==> link_of(ord[i], #[trigger] links[i])
    &&& w.chain == v.chain + links
    &&& w.stack == v.stack + prompts + if links.len() > 0 {
        seq![Processor::ResolveChain { step: 0 }, Processor::ChainResponse { step: 0, player: (1 - tp) as usize }]
    } else {
        Seq::empty()
    }
    &&& w.passes == if links.len() > 0 {
        seq![false, false]
    } else {
        v.passes
    }
}

/// SEGOC: when several mandatory triggers fire at once, every chain link
/// of the turn player's comes before every link of the opponent's.
pub proof fn lemma_segoc_turn_player_first(
    v: DuelView,
    w: DuelView,
    fired: Seq<(usize, CardId, usize, EventSnapshot)>,
    prompts: Seq<Processor>,
    links: Seq<ChainLink>,
)
    requires
        events_processed(v, w, fired, prompts, links),
    ensures
        forall|i: int, j: int|
            0 <= i < j < links.len() && (#[trigger] links[j]).activator == turn_player(v) ==> (
            #[trigger] links[i]).activator == turn_player(v),
{
    let tp = turn_player(v);
    let a = fired.filter(fired_for(tp));
    let b = fired.filter(fired_against(tp));
    let ord = segoc(fired, tp);
    assert forall|i: int, j: int|
        0 <= i < j < links.len() && (#[trigger] links[j]).activator == tp implies (#[trigger] links[i]).activator
        == tp by {
        assert(link_of(ord[j], links[j]));
        assert(link_of(ord[i], links[i]));
        if j >= a.len() {
            assert(ord[j] == b[j - a.len()]);
            fired.lemma_filter_pred(fired_against(tp), j - a.len());
        }
        assert(ord[i] == a[i]);
        fired.lemma_filter_pred(fired_for(tp), i);
    }
}

/// `w` is `v` after `player` tried to activate `card`'s effect in `slot`
/// with outcome `r` (see [`Duel::activate`]). With no such effect nothing
/// happens. Otherwise the host ran, in order and each handed the context
/// the one before handed back: the effect's `condition` (handed `v`'s
/// context with `player` as the activator and `card` as the effect's own
/// card), then, if it said yes, its `target` stage (its coroutine kept),
/// then, unless it paused with no candidate, its `cost` stage (see
/// [`committed`]). A failed stage is the outcome; a `condition` saying no,
/// or a selection with no candidate, rejects the activation. A rejected or
/// failed activation changes only the context and the record of calls.
pub open spec fn activated(
    v: DuelView,
    w: DuelView,
    card: CardId,
    slot: usize,
    player: usize,
    r: Result<DuelStatus, ScriptError>,
) -> bool {
    &&& r != Ok::<DuelStatus, ScriptError>(DuelStatus::Continue)
    &&& quiet(v, w)
    &&& match Duel::slot_index(v, card, slot) {
        None => r == Ok::<DuelStatus, ScriptError>(DuelStatus::End) && w == v,
        Some(i) => {
            let idx = i as usize;
            let n = v.calls.len() as int;
            let cond = w.calls[n];
            let tgt = w.calls[n + 1];
            let cst = w.calls[n + 2];
            &&& w.calls.len() > n
            &&& w.calls.take(n) == v.calls
            &&& cond.stage == Stage::Condition
            &&& cond.effect == idx
            &&& cond.handed == activation_ctx(v.ctx, card, player)
            &&& match cond.answer {
                Err(e) => {
                    &&& r == Err::<DuelStatus, ScriptError>(e)
                    &&& w.calls.len() == n + 1
                    &&& w == with_stage(v, w)
                    &&& w.ctx == cond.returned
                },
                Ok(false) => {
                    &&& r == Ok::<DuelStatus, ScriptError>(DuelStatus::End)
                    &&& w.calls.len() == n + 1
                    &&& w == with_stage(v, w)
                    &&& w.ctx == cond.returned
                },
                Ok(true) => {
                    &&& w.calls.len() > n + 1
                    &&& tgt.stage == (Stage::Target { keep: true })
                    &&& tgt.effect == idx
                    &&& tgt.handed == cond.returned
                    &&& match tgt.answer {
                        Err(e) => {
                            &&& r == Err::<DuelStatus, ScriptError>(e)
                            &&& w.calls.len() == n + 2
                            &&& w == with_stage(v, w)
                            &&& w.ctx == tgt.returned
                        },
                        Ok(asks) => if asks && tgt.returned.candidates@.len() == 0 {
                            &&& r == Ok::<DuelStatus, ScriptError>(DuelStatus::End)
                            &&& w.calls.len() == n + 2
                            &&& w == with_stage(v, w)
                            &&& w.ctx == tgt.returned
                        } else {
                            &&& w.calls.len() == n + 3
                            &&& cst.stage == Stage::Cost
                            &&& cst.effect == idx
                            &&& cst.handed == tgt.returned
                            &&& committed(v, w, card, idx, player, asks, cst, r)
                        },
                    }
                },
            }
        },
    }
}

/// `w` is `v` after the frozen activation was resumed with outcome `r`
/// (see [`Duel::resume`]): the kept `target` stage was resumed, handed the
/// context; if it failed, that is the outcome and only the context (the one
/// it handed back) changed; otherwise the link goes on the chain, activated
/// by the activator of the context it handed back, against its targets.
pub open spec fn resumed(v: DuelView, w: DuelView, r: Result<DuelStatus, ScriptError>) -> bool {
    let u = DuelView { pending: None, ..v };
    let call = w.calls.last();
    let (idx, card) = v.pending->0;
    &&& called(u, w, Stage::Resume, 0)
    &&& w.ctx == call.returned
    &&& match call.answer {
        Err(e) => r == Err::<DuelStatus, ScriptError>(e) && w == with_stage(u, w),
        Ok(_) => {
            &&& r == Ok::<DuelStatus, ScriptError>(DuelStatus::End)
            &&& plain_link(w.chain.last(), idx, card, call.returned.activator, call.returned.targets@)
            &&& link_added(with_stage(u, w), w, w.chain.last())
        },
    }
}

/// `w` is `v` after its whole chain resolved, last link first (see
/// [`Duel::resolve_chain`]).
pub open spec fn chain_resolved(v: DuelView, w: DuelView) -> bool {
    &&& w.chain.len() == 0
    &&& chain_unwound(v, w, v.chain.len())
    &&& Duel::script_frame(DuelView { chain: w.chain, ..v }, w)
}

/// The queued rules keyed to `event`, in queue order.
pub open spec fn keyed_rules(subs: Seq<Subscription>, event: u32) -> Seq<Subscription> {
    subs.filter(|s: Subscription| s.event == event)
}

/// `b` is `a` after `rule` ran: the host ran the rule (handed the context
/// as it stood), then the modifier and rule intents it recorded in the
/// context it handed back were applied (see [`script_ops_applied`]).
pub open spec fn rule_step(a: DuelView, b: DuelView, rule: Subscription) -> bool {
    let call = b.calls.last();
    &&& b.calls == a.calls.push(call)
    &&& call.stage == Stage::Fire
    &&& call.effect == rule.handle
    &&& call.handed == a.ctx
    &&& script_ops_applied(
        with_stage(a, b),
        b,
        call.returned.player_mods_to_add@,
        call.returned.mods_to_remove@,
        call.returned.subscriptions_to_add@,
    )
}

/// `states` runs from `v` to `w`, one state after each of `rules` in turn
/// (see [`rule_step`]).
pub open spec fn rule_steps(v: DuelView, w: DuelView, rules: Seq<Subscription>, states: Seq<DuelView>) -> bool {
    &&& states.len() == rules.len() + 1
    &&& states[0] == v
    &&& states.last() == w
    &&& forall|i: int| #![trigger rules[i]] 0 <= i < rules.len() ==> rule_step(states[i], states[i + 1], rules[i])
}

/// `w` is `v` after each of `rules` ran in turn.
pub open spec fn rules_ran(v: DuelView, w: DuelView, rules: Seq<Subscription>) -> bool {
    exists|states: Seq<DuelView>| #![trigger rule_steps(v, w, rules, states)] rule_steps(v, w, rules, states)
}

/// `w` is `v` after the queued rules keyed to `event` fired (see
/// [`Duel::fire_subscriptions`]): with the queue set aside, each keyed rule
/// ran once, in queue order; then the queue is what survived (see
/// [`survivors`]) followed by the rules the fired ones queued.
pub open spec fn rules_fired(v: DuelView, w: DuelView, event: u32) -> bool {
    &&& exists|x: DuelView|
        #![trigger rules_ran(DuelView { subscriptions: Seq::empty(), ..v }, x, keyed_rules(v.subscriptions, event))]
        {
            &&& rules_ran(DuelView { subscriptions: Seq::empty(), ..v }, x, keyed_rules(v.subscriptions, event))
            &&& w == (DuelView { subscriptions: survivors(v.subscriptions, event) + x.subscriptions, ..x })
        }
    &&& Duel::script_frame(v, w)
    &&& w.subscriptions.len() >= survivors(v.subscriptions, event).len()
    &&& w.subscriptions.take(survivors(v.subscriptions, event).len() as int) == survivors(v.subscriptions, event)
}

/// `r` is what `player` was offered in the open response window of `v`,
/// `w` being `v` afterwards (see [`Duel::response_options_for`]).
pub open spec fn options_offered(v: DuelView, w: DuelView, player: usize, r: Seq<(CardId, usize)>) -> bool {
    &&& w == with_stage(v, w)
    &&& v.chain.len() > 0 ==> offers_approved(
        v,
        w,
        chain_offers(v, player, link_speed(v, v.chain.last().card, v.chain.last().effect_seq)),
        player,
        true,
        r,
    )
    &&& v.chain.len() == 0 ==> match v.window_timing {
        Some(t) => offers_approved(v, w, timed_offers(v, player, t), player, false, r),
        None => r.len() == 0 && w == v,
    }
}

/// `w` is `v` after its event queue was drained and processed (see
/// [`Duel::process_events`]).
pub open spec fn events_done(v: DuelView, w: DuelView) -> bool {
    &&& w.events.len() == 0
    &&& exists|fired: Seq<(usize, CardId, usize, EventSnapshot)>, prompts: Seq<Processor>, links: Seq<ChainLink>|
        #![trigger events_processed(v, w, fired, prompts, links)]
        events_processed(v, w, fired, prompts, links)
    &&& w == (DuelView {
        events: w.events,
        chain: w.chain,
        stack: w.stack,
        passes: w.passes,
        ctx: w.ctx,
        calls: w.calls,
        ..v
    })
}

/// How many host calls the approval of `offer` made, its calls starting at
/// `calls[s]`: none for an offer naming no effect; its `condition`; and,
/// when targets are checked and the condition said yes, its `target` stage.
pub open spec fn offer_calls(v: DuelView, calls: Seq<HostCall>, s: int, offer: (CardId, usize), check_target: bool) -> int {
    if Duel::slot_index(v, offer.0, offer.1) is None {
        0
    } else if check_target && calls[s].answer == Ok::<bool, ScriptError>(true) {
        2
    } else {
        1
    }
}

/// Whether `offer` was approved by its host calls, starting at `calls[s]`:
/// its `condition` said yes (an error counts as no) and, when targets are
/// checked, its `target` stage did not pause with no candidate.
pub open spec fn offer_passed(v: DuelView, calls: Seq<HostCall>, s: int, offer: (CardId, usize), check_target: bool) -> bool {
    &&& Duel::slot_index(v, offer.0, offer.1) is Some
    &&& calls[s].answer == Ok::<bool, ScriptError>(true)
    &&& check_target ==> !(calls[s + 1].answer == Ok::<bool, ScriptError>(true)
        && calls[s + 1].returned.candidates@.len() == 0)
}

/// The host calls for the approval of `offer`, starting at `calls[s]`, are
/// what they should be: its `condition` for the offer's effect, handed
/// `player` as the activator and the offer's card as the effect's own card;
/// then, where made, its `target` stage for that effect (its coroutine not
/// kept), handed what the condition handed back with no candidate.
pub open spec fn offer_asked(
    v: DuelView,
    calls: Seq<HostCall>,
    s: int,
    offer: (CardId, usize),
    player: usize,
    check_target: bool,
) -> bool {
    let idx = Duel::slot_index(v, offer.0, offer.1)->0 as usize;
    Duel::slot_index(v, offer.0, offer.1) is Some ==> {
        &&& calls[s].stage == Stage::Condition
        &&& calls[s].effect == idx
        &&& calls[s].handed.activator == player
        &&& calls[s].handed.self_card == Some(offer.0)
        &&& offer_calls(v, calls, s, offer, check_target) == 2 ==> {
            &&& calls[s + 1].stage == (Stage::Target { keep: false })
            &&& calls[s + 1].effect == idx
            &&& calls[s + 1].handed == (EffectContext { candidates: calls[s + 1].handed.candidates, ..calls[s].returned })
            &&& calls[s + 1].handed.candidates@.len() == 0
        }
    }
}

/// `w` is `v` after each of `offers` was put to the host in turn (see
/// [`offer_asked`]), its calls starting at `starts`: the record of calls
/// grew by exactly those calls.
pub open spec fn approval_run(
    v: DuelView,
    w: DuelView,
    offers: Seq<(CardId, usize)>,
    player: usize,
    check_target: bool,
    starts: Seq<int>,
) -> bool {
    &&& starts.len() == offers.len()
    &&& w.calls.len() >= v.calls.len()
    &&& w.calls.take(v.calls.len() as int) == v.calls
    &&& offers.len() == 0 ==> w.calls.len() == v.calls.len()
    &&& offers.len() > 0 ==> starts[0] == v.calls.len()
    &&& forall|i: int|
        #![trigger starts[i]]
        0 <= i < offers.len() ==> {
            &&& v.calls.len() <= starts[i]
            &&& starts[i] + offer_calls(v, w.calls, starts[i], offers[i], check_target) == if i + 1 < offers.len() {
                starts[i + 1]
            } else {
                w.calls.len() as int
            }
            &&& offer_asked(v, w.calls, starts[i], offers[i], player, check_target)
        }
}

/// `r` is what was left of `offers` when each was put to the host from `v`
/// (ending in `w`): exactly the offers its calls approved, in offer order.
pub open spec fn offers_approved(
    v: DuelView,
    w: DuelView,
    offers: Seq<(CardId, usize)>,
    player: usize,
    check_target: bool,
    r: Seq<(CardId, usize)>,
) -> bool {
    exists|starts: Seq<int>|
        #![trigger approval_run(v, w, offers, player, check_target, starts)]
        {
            &&& approval_run(v, w, offers, player, check_target, starts)
            &&& r == masked(
                offers,
                Seq::new(offers.len(), |i: int| offer_passed(v, w.calls, starts[i], offers[i], check_target)),
            )
        }
}

/// Firing order of (event, effect) pairs: by event, then by effect.
pub open spec fn key_lt(a: (int, int), b: (int, int)) -> bool {
    a.0 < b.0 || (a.0 == b.0 && a.1 < b.1)
}

/// For each (event, effect) pair of `keys`, whether its `condition` call
/// (the `j`-th call after those of `v`, in `w`'s record) said yes and the
/// effect's `optional` flag is `optional`.
pub open spec fn fire_mask(v: DuelView, w: DuelView, keys: Seq<(int, int)>, optional: bool) -> Seq<bool> {
    Seq::new(
        keys.len(),
        |j: int|
            w.calls[v.calls.len() + j].answer == Ok::<bool, ScriptError>(true) && v.effects[keys[j].1].optional
                == optional,
    )
}

/// `f` is what fired for effect `key.1` on event `key.0` of `v`: the
/// effect, the event's card, its controller, and the event's record.
pub open spec fn fired_from(v: DuelView, key: (int, int), f: (usize, CardId, usize, EventSnapshot)) -> bool {
    let ev = v.events[key.0];
    &&& f.0 == key.1
    &&& f.1 == ev.card
    &&& f.2 == super::battle::controller(v, ev.card)
    &&& f.3.records(ev)
}

/// `u` is the yes/no prompt queued for optional effect `key.1` on event
/// `key.0` of `v`.
pub open spec fn prompt_from(v: DuelView, key: (int, int), u: Processor) -> bool {
    let ev = v.events[key.0];
    u matches Processor::OptionalTrigger { step, effect, card, player, event } && {
        &&& step == 0
        &&& effect == key.1
        &&& card == ev.card
        &&& player == super::battle::controller(v, ev.card)
        &&& event.records(ev)
    }
}

/// Collecting the triggers of `v`'s events has reached pair `front`: the
/// host was asked the `condition` of each trigger keyed to an event before
/// `front` (see [`triggered_by`]), once each and in firing order, with the
/// event card's controller as the activator (`keys` lists them); `fired`
/// holds the mandatory ones whose condition said yes and `prompts` the
/// prompts of the optional ones that did, each in firing order.
pub open spec fn collected_upto(
    v: DuelView,
    w: DuelView,
    keys: Seq<(int, int)>,
    fired: Seq<(usize, CardId, usize, EventSnapshot)>,
    prompts: Seq<Processor>,
    front: (int, int),
) -> bool {
    let n = v.calls.len() as int;
    let fk = masked(keys, fire_mask(v, w, keys, false));
    let pk = masked(keys, fire_mask(v, w, keys, true));
    &&& w.calls.len() == n + keys.len()
    &&& w.calls.take(n) == v.calls
    &&& forall|j: int|
        #![trigger keys[j]]
        0 <= j < keys.len() ==> {
            let key = keys[j];
            let call = w.calls[n + j];
            &&& 0 <= key.0 < v.events.len()
            &&& 0 <= key.1
            &&& key_lt(key, front)
            &&& triggered_by(v, key.1, v.events[key.0])
            &&& call.stage == Stage::Condition
            &&& call.effect == key.1
            &&& call.handed.activator == super::battle::controller(v, v.events[key.0].card)
        }
    &&& forall|a: int, b: int| #![trigger keys[a], keys[b]] 0 <= a < b < keys.len() ==> key_lt(keys[a], keys[b])
    &&& forall|k: int, i: int|
        #![trigger triggered_by(v, i, v.events[k])]
        0 <= k < v.events.len() && 0 <= i && key_lt((k, i), front) && triggered_by(v, i, v.events[k])
            ==> keys.contains((k, i))
    &&& fired.len() == fk.len()
    &&& forall|m: int| #![trigger fired[m]] 0 <= m < fired.len() ==> fired_from(v, fk[m], fired[m])
    &&& prompts.len() == pk.len()
    &&& forall|m: int| #![trigger prompts[m]] 0 <= m < prompts.len() ==> prompt_from(v, pk[m], prompts[m])
}

/// Nothing collected yet.
proof fn lemma_collect_start(v: DuelView)
    ensures
        collected_upto(v, v, Seq::empty(), Seq::empty(), Seq::empty(), (0, 0)),
{
    assert(v.calls.take(v.calls.len() as int) =~= v.calls);
}

/// Passing over a pair that is not a keyed trigger.
proof fn lemma_collect_skip(
    v: DuelView,
    w: DuelView,
    keys: Seq<(int, int)>,
    fired: Seq<(usize, CardId, usize, EventSnapshot)>,
    prompts: Seq<Processor>,
    k: int,
    i: int,
)
    requires
        collected_upto(v, w, keys, fired, prompts, (k, i)),
        !triggered_by(v, i, v.events[k]),
    ensures
        collected_upto(v, w, keys, fired, prompts, (k, i + 1)),
{
    assert forall|k2: int, i2: int|
        0 <= k2 < v.events.len() && 0 <= i2 && key_lt((k2, i2), (k, i + 1)) && #[trigger] triggered_by(v, i2, v.events[k2])
        implies keys.contains((k2, i2)) by {
        if k2 == k && i2 == i {
        } else {
            assert(key_lt((k2, i2), (k, i)));
        }
    }
}

/// Moving on to the next event once no later effect is keyed to this one.
proof fn lemma_collect_next(
    v: DuelView,
    w: DuelView,
    keys: Seq<(int, int)>,
    fired: Seq<(usize, CardId, usize, EventSnapshot)>,
    prompts: Seq<Processor>,
    k: int,
    i: int,
)
    requires
        collected_upto(v, w, keys, fired, prompts, (k, i)),
        0 <= i,
        forall|i2: int| i <= i2 ==> !#[trigger] triggered_by(v, i2, v.events[k]),
    ensures
        collected_upto(v, w, keys, fired, prompts, (k + 1, 0)),
{
    assert forall|k2: int, i2: int|
        0 <= k2 < v.events.len() && 0 <= i2 && key_lt((k2, i2), (k + 1, 0)) && #[trigger] triggered_by(v, i2, v.events[k2])
        implies keys.contains((k2, i2)) by {
        if k2 == k && i2 >= i {
        } else {
            assert(key_lt((k2, i2), (k, i)));
        }
    }
}

/// Asking the `condition` of a keyed trigger, and recording what fired.
proof fn lemma_collect_asked(
    v: DuelView,
    w: DuelView,
    w2: DuelView,
    keys: Seq<(int, int)>,
    fired: Seq<(usize, CardId, usize, EventSnapshot)>,
    prompts: Seq<Processor>,
    fired2: Seq<(usize, CardId, usize, EventSnapshot)>,
    prompts2: Seq<Processor>,
    k: int,
    i: int,
    f: (usize, CardId, usize, EventSnapshot),
    u: Processor,
)
    requires
        collected_upto(v, w, keys, fired, prompts, (k, i)),
        0 <= k < v.events.len(),
        0 <= i,
        triggered_by(v, i, v.events[k]),
        w2.calls == w.calls.push(w2.calls.last()),
        w2.calls.last().stage == Stage::Condition,
        w2.calls.last().effect == i,
        w2.calls.last().handed.activator == super::battle::controller(v, v.events[k].card),
        fired_from(v, (k, i), f),
        prompt_from(v, (k, i), u),
        fired2 == if w2.calls.last().answer == Ok::<bool, ScriptError>(true) && !v.effects[i].optional {
            fired.push(f)
        } else {
            fired
        },
        prompts2 == if w2.calls.last().answer == Ok::<bool, ScriptError>(true) && v.effects[i].optional {
            prompts.push(u)
        } else {
            prompts
        },
    ensures
        collected_upto(v, w2, keys.push((k, i)), fired2, prompts2, (k, i + 1)),
{
    let n = v.calls.len() as int;
    let keys2 = keys.push((k, i));
    assert(w2.calls.take(n) =~= w.calls.take(n));
    assert forall|j: int| #![trigger keys[j]] 0 <= j < keys.len() implies w2.calls[n + j] == w.calls[n + j] by {}
    assert(w2.calls[n + keys.len()] == w2.calls.last());
    assert forall|j: int|
        #![trigger keys2[j]]
        0 <= j < keys2.len() implies {
            let key = keys2[j];
            let call = w2.calls[n + j];
            &&& 0 <= key.0 < v.events.len()
            &&& 0 <= key.1
            &&& key_lt(key, (k, i + 1))
            &&& triggered_by(v, key.1, v.events[key.0])
            &&& call.stage == Stage::Condition
            &&& call.effect == key.1
            &&& call.handed.activator == super::battle::controller(v, v.events[key.0].card)
        } by {
        if j < keys.len() {
            assert(keys2[j] == keys[j]);
        }
    }
    assert forall|a: int, b: int| #![trigger keys2[a], keys2[b]] 0 <= a < b < keys2.len() implies key_lt(
        keys2[a],
        keys2[b],
    ) by {
        assert(keys2[a] == keys[a]);
        if b < keys.len() {
            assert(keys2[b] == keys[b]);
        }
    }
    assert forall|k2: int, i2: int|
        0 <= k2 < v.events.len() && 0 <= i2 && key_lt((k2, i2), (k, i + 1)) && #[trigger] triggered_by(v, i2, v.events[k2])
        implies keys2.contains((k2, i2)) by {
        if k2 == k && i2 == i {
            assert(keys2[keys.len() as int] == (k, i));
        } else {
            assert(key_lt((k2, i2), (k, i)));
            assert(keys.contains((k2, i2)));
            let j = choose|j: int| 0 <= j < keys.len() && keys[j] == (k2, i2);
            assert(keys2[j] == (k2, i2));
        }
    }
    let yes = w2.calls.last().answer == Ok::<bool, ScriptError>(true);
    assert(fire_mask(v, w2, keys2, false) =~= fire_mask(v, w, keys, false).push(yes && !v.effects[i].optional));
    assert(fire_mask(v, w2, keys2, true) =~= fire_mask(v, w, keys, true).push(yes && v.effects[i].optional));
    assert(keys2.drop_last() =~= keys);
    assert(fire_mask(v, w, keys, false).push(yes && !v.effects[i].optional).drop_last() =~= fire_mask(v, w, keys, false));
    assert(fire_mask(v, w, keys, true).push(yes && v.effects[i].optional).drop_last() =~= fire_mask(v, w, keys, true));
}

/// Whether `player` can pay `cost` now: life points no more than they have
/// (paying down to exactly 0 is legal); a discard while the card is in a hand.
pub open spec fn payable(v: DuelView, cost: CostType, player: usize) -> bool {
    match cost {
        CostType::LifePoints(n) => v.lps[player as int] >= n,
        CostType::Discard(card) => v.location(card) matches Some(l) && l.1 == Zone::Hand,
    }
}

/// `w`'s record of host calls is `v`'s with one more: `stage` ran for
/// `effect`, handed `v`'s effect context.
pub open spec fn called(v: DuelView, w: DuelView, stage: Stage, effect: usize) -> bool {
    &&& w.calls == v.calls.push(w.calls.last())
    &&& w.calls.last().stage == stage
    &&& w.calls.last().effect == effect
    &&& w.calls.last().handed == v.ctx
}

/// The costs the last host call (a `cost` stage) declared.
pub open spec fn declared_costs(w: DuelView) -> Seq<CostType> {
    w.calls.last().returned.costs@
}

/// Whether `player` can pay every one of `costs` now.
pub open spec fn all_payable(v: DuelView, costs: Seq<CostType>, player: usize) -> bool {
    forall|i: int| 0 <= i < costs.len() ==> payable(v, #[trigger] costs[i], player)
}

/// `v` with the effect context `c`.
pub open spec fn with_ctx(v: DuelView, c: EffectContext) -> DuelView {
    DuelView { ctx: c, ..v }
}

/// `v` after stages ran in the script host, as in `s`: the effect context
/// and the record of host calls are those of `s`.
pub open spec fn with_stage(v: DuelView, s: DuelView) -> DuelView {
    DuelView { ctx: s.ctx, calls: s.calls, ..v }
}

/// `w` is `v` after sending `card` to `zone`.
pub open spec fn send_step(v: DuelView, w: DuelView, card: CardId, zone: Zone) -> bool {
    v.field.after_send(&w.field, card, zone) && w == (DuelView { field: w.field, ..v })
}

/// `w` is `v` after `player` paid `cost`: life points are paid; a discarded
/// card is sent to the GY (not destroyed).
pub open spec fn cost_step(v: DuelView, w: DuelView, cost: CostType, player: usize) -> bool {
    match cost {
        CostType::LifePoints(n) => w == after_lp_loss(v, player, n),
        CostType::Discard(card) => send_step(v, w, card, Zone::GY),
    }
}

/// Paying costs changes only the life points, the table and the result.
pub open spec fn cost_frame(v: DuelView, w: DuelView) -> bool {
    w == (DuelView { lps: w.lps, result: w.result, win_reason: w.win_reason, field: w.field, ..v })
}

/// No player's life points went up.
pub open spec fn lp_down(v: DuelView, w: DuelView) -> bool {
    forall|p: int| 0 <= p < 2 ==> w.lps[p] <= v.lps[p]
}

/// The outbox, the inbox, the task stack, the turn record and the turn
/// limit are as they were, and no player's life points went up.
pub open spec fn quiet(v: DuelView, w: DuelView) -> bool {
    &&& w.messages == v.messages
    &&& w.responses == v.responses
    &&& w.stack == v.stack
    &&& w.turn_hist == v.turn_hist
    &&& w.max_turns == v.max_turns
    &&& w.effects == v.effects
    &&& lp_down(v, w)
}

/// `w` is `v` after `player` paid each of `costs`, in order.
pub open spec fn costs_applied(v: DuelView, w: DuelView, costs: Seq<CostType>, player: usize) -> bool
    decreases costs.len(),
{
    if costs.len() == 0 {
        w == v
    } else {
        exists|mid: DuelView|
            costs_applied(v, mid, costs.drop_last(), player) && cost_step(
                mid,
                w,
                costs.last(),
                player,
            )
    }
}

/// `w` is `v` after destroying each of `cards` for `reason`, in order.
pub open spec fn destroyed_seq(v: DuelView, w: DuelView, cards: Seq<CardId>, reason: Reason) -> bool
    decreases cards.len(),
{
    if cards.len() == 0 {
        w == v
    } else {
        exists|mid: DuelView|
            destroyed_seq(v, mid, cards.drop_last(), reason) && Duel::destroy_step(
                mid,
                w,
                cards.last(),
                reason,
            )
    }
}

/// `w` is `v` after each `(card, zone)` move of `moves`, in order.
pub open spec fn moved_seq(v: DuelView, w: DuelView, moves: Seq<(CardId, Zone)>) -> bool
    decreases moves.len(),
{
    if moves.len() == 0 {
        w == v
    } else {
        exists|mid: DuelView|
            #![trigger send_step(mid, w, moves.last().0, moves.last().1)]
            moved_seq(v, mid, moves.drop_last()) && send_step(mid, w, moves.last().0, moves.last().1)
    }
}

proof fn lemma_moved_more(v: DuelView, mid: DuelView, w: DuelView, moves: Seq<(CardId, Zone)>)
    requires
        moves.len() > 0,
        moved_seq(v, mid, moves.drop_last()),
        send_step(mid, w, moves.last().0, moves.last().1),
    ensures
        moved_seq(v, w, moves),
{
    let mv = moves.last();
    assert(send_step(mid, w, mv.0, mv.1));
}

/// Destroying never looks at or changes the effect context.
proof fn lemma_destroyed_ctx(v: DuelView, w: DuelView, cards: Seq<CardId>, reason: Reason, c: EffectContext)
    requires
        destroyed_seq(v, w, cards, reason),
    ensures
        destroyed_seq(with_ctx(v, c), with_ctx(w, c), cards, reason),
    decreases cards.len(),
{
    if cards.len() > 0 {
        let mid = choose|mid: DuelView|
            destroyed_seq(v, mid, cards.drop_last(), reason) && Duel::destroy_step(mid, w, cards.last(), reason);
        lemma_destroyed_ctx(v, mid, cards.drop_last(), reason, c);
        assert(Duel::destroy_step(with_ctx(mid, c), with_ctx(w, c), cards.last(), reason));
    }
}

/// Moving never looks at or changes the effect context.
proof fn lemma_moved_ctx(v: DuelView, w: DuelView, moves: Seq<(CardId, Zone)>, c: EffectContext)
    requires
        moved_seq(v, w, moves),
    ensures
        moved_seq(with_ctx(v, c), with_ctx(w, c), moves),
    decreases moves.len(),
{
    if moves.len() > 0 {
        let mid = choose|mid: DuelView|
            #![trigger send_step(mid, w, moves.last().0, moves.last().1)]
            moved_seq(v, mid, moves.drop_last()) && send_step(mid, w, moves.last().0, moves.last().1);
        lemma_moved_ctx(v, mid, moves.drop_last(), c);
        assert(send_step(with_ctx(mid, c), with_ctx(w, c), moves.last().0, moves.last().1));
        lemma_moved_more(with_ctx(v, c), with_ctx(mid, c), with_ctx(w, c), moves);
    }
}

/// What remains of the queued rules `subs` once `event` fired: the rules
/// keyed to other events, in order, then each rule keyed to `event` that had
/// a firing left after this one, with one firing fewer.
pub open spec fn survivors(subs: Seq<Subscription>, event: u32) -> Seq<Subscription> {
    subs.filter(|s: Subscription| s.event != event) + subs.filter(
        |s: Subscription| s.event == event && s.remaining > 1,
    ).map_values(|s: Subscription| Subscription { remaining: (s.remaining - 1) as u32, ..s })
}

/// The spell speed of registered effect `effect_seq` on `card` (0 if the card
/// is gone).
pub open spec fn link_speed(v: DuelView, card: CardId, effect_seq: usize) -> u8 {
    match v.card(card) {
        Some(c) => speed(
            v.effects[effect_seq as int].kind,
            c.data.card_type,
            c.data.spell_type,
            c.data.trap_type,
        ),
        None => 0,
    }
}

/// `w` is `v` after removing the modifier `id` from every card and player.
pub open spec fn remove_step(v: DuelView, w: DuelView, id: u32) -> bool {
    &&& w.cards.dom() == v.cards.dom()
    &&& forall|k: u64|
        #![trigger w.cards[k]]
        v.cards.contains_key(k) ==> same_but_modifiers(v.cards[k], w.cards[k])
            && w.cards[k].modifiers@ == v.cards[k].modifiers@.filter(|m: Modifier| m.id != id)
    &&& w.player_mods == v.player_mods.map_values(
        |s: Seq<Modifier>| s.filter(|m: Modifier| m.id != id),
    )
    &&& w == (DuelView { cards: w.cards, player_mods: w.player_mods, ..v })
}

/// `w` is `v` after removing each modifier id of `ids`, in order.
pub open spec fn removed_seq(v: DuelView, w: DuelView, ids: Seq<u32>) -> bool
    decreases ids.len(),
{
    if ids.len() == 0 {
        w == v
    } else {
        exists|mid: DuelView|
            #![trigger remove_step(mid, w, ids.last())]
            removed_seq(v, mid, ids.drop_last()) && remove_step(mid, w, ids.last())
    }
}

/// Each player's modifier list after the grants `adds` (`(id, player,
/// source, kind)`), in order; a grant to a player other than 0 or 1 is
/// dropped.
pub open spec fn granted(pm: Seq<Seq<Modifier>>, adds: Seq<(u32, usize, CardId, ModifierType)>) -> Seq<
    Seq<Modifier>,
>
    decreases adds.len(),
{
    if adds.len() == 0 {
        pm
    } else {
        let before = granted(pm, adds.drop_last());
        let a = adds.last();
        if a.1 < 2 {
            before.update(a.1 as int, before[a.1 as int].push(Modifier { id: a.0, source: a.2, mod_type: a.3 }))
        } else {
            before
        }
    }
}

/// `w` is `v` after the player-modifier grants `adds`, then the removals
/// `removes`, then queueing the rules `subs` after the existing ones.
pub open spec fn script_ops_applied(
    v: DuelView,
    w: DuelView,
    adds: Seq<(u32, usize, CardId, ModifierType)>,
    removes: Seq<u32>,
    subs: Seq<Subscription>,
) -> bool {
    exists|r: DuelView|
        #![trigger removed_seq(DuelView { player_mods: granted(v.player_mods, adds), ..v }, r, removes)]
        {
            &&& removed_seq(DuelView { player_mods: granted(v.player_mods, adds), ..v }, r, removes)
            &&& w == (DuelView { subscriptions: r.subscriptions + subs, ..r })
        }
}

/// `w` is `v` after applying what a stage recorded (`to_destroy`, `to_move`,
/// the grants `adds`, the removals `removes`, the queued `subs`): the cards
/// to destroy are destroyed by effect, then the moves are made, then the
/// player modifiers are granted, then the removals are made, then the rules
/// are queued after the existing ones.
pub open spec fn intents_applied(
    v: DuelView,
    w: DuelView,
    to_destroy: Seq<CardId>,
    to_move: Seq<(CardId, Zone)>,
    adds: Seq<(u32, usize, CardId, ModifierType)>,
    removes: Seq<u32>,
    subs: Seq<Subscription>,
) -> bool {
    exists|d: DuelView, m: DuelView|
        #![trigger destroyed_seq(v, d, to_destroy, REASON_EFFECT), moved_seq(d, m, to_move)]
        {
            &&& destroyed_seq(v, d, to_destroy, REASON_EFFECT)
            &&& moved_seq(d, m, to_move)
            &&& script_ops_applied(m, w, adds, removes, subs)
        }
}

impl Duel {
    /// What every rule needs to run without panicking: every located card is
    /// in player 0's or player 1's zone; every card's stats fold in `i32`
    /// with any of its modifiers removed (see [`super::board::small_stat`]);
    /// the chain links and the frozen activation name
    /// registered effects; every turn was player 0's or 1's; every queued
    /// task is well formed; and the responder is player 0 or 1.
    pub open spec fn sound(v: DuelView) -> bool {
        &&& v.field.players_in_range()
        &&& forall|k: u64| #[trigger] v.cards.contains_key(k) ==> super::board::small_card(v.cards[k])
        &&& forall|i: int| 0 <= i < v.chain.len() ==> (#[trigger] v.chain[i]).effect_seq < v.effects.len()
        &&& (v.pending matches Some(p) ==> p.0 < v.effects.len())
        &&& forall|i: int| 0 <= i < v.turn_hist.len() ==> #[trigger] v.turn_hist[i] < 2
        &&& forall|i: int| 0 <= i < v.stack.len() ==> Duel::unit_ok(#[trigger] v.stack[i], v.effects.len())
        &&& v.responder < 2
    }

    /// A queued task names players 0 or 1 and valid effects, and a turn is
    /// within its seven phases.
    pub open spec fn unit_ok(u: Processor, n_effects: nat) -> bool {
        match u {
            Processor::Turn { step, player } => step < 7 && player < 2,
            Processor::IdleCommand { player, .. } => player < 2,
            Processor::Activate { player, .. } => player < 2,
            Processor::BattleCommand { player, .. } => player < 2,
            Processor::Attack { player, .. } => player < 2,
            Processor::OptionalTrigger { player, effect, .. } => player < 2 && effect < n_effects,
            Processor::ChainResponse { player, .. } => player < 2,
            _ => true,
        }
    }

    /// What running scripts never changes: everything but the cards, the
    /// table, the event queue, the player modifiers, the queued rules and the
    /// effect context.
    pub open spec fn script_frame(v: DuelView, w: DuelView) -> bool {
        w == (DuelView {
            cards: w.cards,
            field: w.field,
            events: w.events,
            player_mods: w.player_mods,
            subscriptions: w.subscriptions,
            ctx: w.ctx,
            calls: w.calls,
            ..v
        })
    }

    // ===== The effect registry ==============================================

    /// How many effects the loaded cards registered.
    pub fn effect_count(&self) -> (n: usize)
        ensures
            n == self@.effects.len(),
    {
        self.effects.len()
    }

    /// Register an effect a loaded card declared; returns its registry index.
    pub fn register_effect(&mut self, effect: EffectInfo) -> (idx: usize)
        requires
            old(self).wf(),
        ensures
            final(self).wf(),
            idx == old(self)@.effects.len(),
            final(self)@ == (DuelView { effects: old(self)@.effects.push(effect), ..old(self)@ }),
    {
        self.effects.push(effect);
        self.effects.len() - 1
    }

    /// Record the printed definition a loaded card declared for `code`
    /// (replacing any earlier one).
    pub fn register_card(&mut self, code: u32, data: CardData)
        requires
            old(self).wf(),
        ensures
            final(self).wf(),
            final(self)@ == (DuelView { card_data: old(self)@.card_data.insert(code, data), ..old(self)@ }),
    {
        self.card_data.insert(code, data);
    }

    /// A registered effect's kind.
    pub fn effect_kind(&self, effect: usize) -> (k: EffectKind)
        requires
            effect < self@.effects.len(),
        ensures
            k == self@.effects[effect as int].kind,
    {
        self.effects[effect].kind
    }

    /// The effects registered for card code `code`, in registration order.
    pub fn code_effects(&self, code: u32) -> (r: Vec<EffectInfo>)
        ensures
            r@ == self@.effects.filter(|e: EffectInfo| e.code == code),
    {
        let mut r: Vec<EffectInfo> = Vec::new();
        let mut i: usize = 0;
        while i < self.effects.len()
            invariant
                i <= self@.effects.len(),
                r@ == self@.effects.take(i as int).filter(|e: EffectInfo| e.code == code),
            decreases self@.effects.len() - i,
        {
            proof {
                assert(self@.effects.take(i as int + 1).drop_last() =~= self@.effects.take(i as int));
                reveal_with_fuel(Seq::filter, 1);
            }
            if self.effects[i].code == code {
                r.push(self.effects[i]);
            }
            i = i + 1;
        }
        assert(self@.effects.take(i as int) =~= self@.effects);
        r
    }

    /// The effects of `card`'s code (none if it is not in the arena).
    pub fn effects_of(&self, card: CardId) -> (r: Vec<EffectInfo>)
        ensures
            r@ == match self@.card(card) {
                Some(c) => self@.effects.filter(|e: EffectInfo| e.code == c.code),
                None => Seq::<EffectInfo>::empty(),
            },
    {
        match self.get_card(card) {
            Some(c) => self.code_effects(c.code),
            None => Vec::new(),
        }
    }

    /// The registry index of the `slot`-th effect of `card`'s code.
    pub open spec fn slot_index(v: DuelView, card: CardId, slot: usize) -> Option<int> {
        match v.card(card) {
            Some(c) => if slot < code_indices(v.effects, c.code).len() {
                Some(code_indices(v.effects, c.code)[slot as int])
            } else {
                None
            },
            None => None,
        }
    }

    /// The registry index of the `slot`-th effect of `code`.
    fn code_slot_index(&self, code: u32, slot: usize) -> (r: Option<usize>)
        ensures
            r == if slot < code_indices(self@.effects, code).len() {
                Some(code_indices(self@.effects, code)[slot as int] as usize)
            } else {
                None::<usize>
            },
            r matches Some(i) ==> i < self@.effects.len(),
    {
        let mut seen: usize = 0;
        let mut i: usize = 0;
        while i < self.effects.len()
            invariant
                i <= self@.effects.len(),
                seen == code_indices(self@.effects.take(i as int), code).len(),
                seen <= slot,
                forall|j: int| 0 <= j < seen ==> code_indices(self@.effects.take(i as int), code)[j] < i,
            decreases self@.effects.len() - i,
        {
            proof {
                Duel::lemma_code_indices_prefix(self@.effects, code, i as int);
            }
            if self.effects[i].code == code {
                if seen == slot {
                    proof {
                        Duel::lemma_code_indices_prefix(self@.effects, code, i as int + 1);
                    }
                    return Some(i);
                }
                seen = seen + 1;
            }
            i = i + 1;
        }
        assert(self@.effects.take(i as int) =~= self@.effects);
        None
    }

    /// The code indices of a prefix are a prefix of the code indices.
    proof fn lemma_code_indices_prefix(effects: Seq<EffectInfo>, code: u32, i: int)
        requires
            0 <= i <= effects.len(),
        ensures
            code_indices(effects.take(i), code).len() <= code_indices(effects, code).len(),
            forall|j: int|
                0 <= j < code_indices(effects.take(i), code).len() ==> code_indices(
                    effects.take(i),
                    code,
                )[j] == code_indices(effects, code)[j] && code_indices(effects, code)[j] < i,
            forall|j: int|
                0 <= j < code_indices(effects, code).len() && code_indices(effects, code)[j] < i
                    ==> j < code_indices(effects.take(i), code).len(),
            i < effects.len() ==> code_indices(effects.take(i + 1), code) == if effects[i].code
                == code {
                code_indices(effects.take(i), code).push(i)
            } else {
                code_indices(effects.take(i), code)
            },
            forall|j: int|
                0 <= j < code_indices(effects, code).len() ==> 0 <= #[trigger] code_indices(effects, code)[j]
                    < effects.len(),
        decreases effects.len(),
    {
        if i < effects.len() {
            assert(effects.take(i + 1).drop_last() =~= effects.take(i));
        }
        if effects.len() > 0 {
            if i == effects.len() {
                assert(effects.take(i) =~= effects);
                Duel::lemma_code_indices_prefix(effects.drop_last(), code, i - 1);
                assert(effects.drop_last().take(i - 1) =~= effects.drop_last());
            } else {
                assert(effects.drop_last().take(i) =~= effects.take(i));
                Duel::lemma_code_indices_prefix(effects.drop_last(), code, i);
                Duel::lemma_code_indices_prefix(effects.drop_last(), code, effects.len() - 1);
                assert(effects.drop_last().take(effects.len() - 1) =~= effects.drop_last());
            }
        }
    }

    /// The registry index of `card`'s effect in `slot`, if it has one.
    fn effect_index(&self, card: CardId, slot: usize) -> (r: Option<usize>)
        ensures
            r == match Duel::slot_index(self@, card, slot) {
                Some(i) => Some(i as usize),
                None => None::<usize>,
            },
            r matches Some(i) ==> i < self@.effects.len(),
    {
        match self.get_card(card) {
            Some(c) => self.code_slot_index(c.code, slot),
            None => None,
        }
    }

    /// The slots of `card`'s effects that fit `want` and `event`.
    fn kind_slots_of(&self, card: CardId, want: EffectKind, event: Option<u32>) -> (r: Vec<usize>)
        ensures
            r@ == match self@.card(card) {
                Some(c) => kind_slots(self@.effects, c.code, want, event),
                None => Seq::<usize>::empty(),
            },
    {
        let code = match self.get_card(card) {
            Some(c) => c.code,
            None => {
                return Vec::new();
            },
        };
        let mut r: Vec<usize> = Vec::new();
        let mut seen: usize = 0;
        let mut i: usize = 0;
        while i < self.effects.len()
            invariant
                i <= self@.effects.len(),
                seen == code_indices(self@.effects.take(i as int), code).len(),
                seen <= i,
                r@ == kind_slots(self@.effects.take(i as int), code, want, event),
            decreases self@.effects.len() - i,
        {
            proof {
                assert(self@.effects.take(i as int + 1).drop_last() =~= self@.effects.take(i as int));
            }
            let e = self.effects[i];
            if e.code == code {
                let ok = match event {
                    Some(t) => e.kind == want && e.event == t,
                    None => e.kind == want,
                };
                if ok {
                    r.push(seen);
                }
                seen = seen + 1;
            }
            i = i + 1;
        }
        assert(self@.effects.take(i as int) =~= self@.effects);
        r
    }

    /// The offers of each of `cards` in turn (see [`offers`]).
    fn offers_of(&self, cards: &Vec<CardId>, want: EffectKind, event: Option<u32>) -> (r: Vec<(CardId, usize)>)
        ensures
            r@ == offers(self@, cards@, want, event),
    {
        let mut r: Vec<(CardId, usize)> = Vec::new();
        let mut i: usize = 0;
        while i < cards.len()
            invariant
                i <= cards@.len(),
                r@ == offers(self@, cards@.take(i as int), want, event),
            decreases cards@.len() - i,
        {
            let card = cards[i];
            let slots = self.kind_slots_of(card, want, event);
            let ghost before = r@;
            let mut j: usize = 0;
            while j < slots.len()
                invariant
                    j <= slots@.len(),
                    r@ == before + slots@.take(j as int).map_values(|s: usize| (card, s)),
                decreases slots@.len() - j,
            {
                r.push((card, slots[j]));
                j = j + 1;
                assert(r@ =~= before + slots@.take(j as int).map_values(|s: usize| (card, s)));
            }
            proof {
                assert(slots@.take(j as int) =~= slots@);
                assert(cards@.take(i as int + 1).drop_last() =~= cards@.take(i as int));
                assert(card_offers(self@, card, want, event) =~= slots@.map_values(|s: usize| (card, s)));
            }
            i = i + 1;
        }
        assert(cards@.take(i as int) =~= cards@);
        r
    }

    /// Keep the offers whose effect `condition` passes for `player` (a failing
    /// stage counts as "no") and, when `check_target`, whose `target` stage
    /// finds a legal candidate; in order.
    #[verifier::rlimit(60)]
    fn approved<H: ScriptHost>(
        &mut self,
        offers: Vec<(CardId, usize)>,
        player: usize,
        check_target: bool,
        host: &mut H,
    ) -> (r: Vec<(CardId, usize)>)
        requires
            old(self).wf(),
        ensures
            final(self).wf(),
            final(self)@ == with_stage(old(self)@, final(self)@),
            picked_from(r@, offers@),
            offers_approved(old(self)@, final(self)@, offers@, player, check_target, r@),
    {
        let mut r: Vec<(CardId, usize)> = Vec::new();
        let ghost mut mask: Seq<bool> = Seq::empty();
        let ghost mut starts: Seq<int> = Seq::empty();
        let ghost v0 = old(self)@;
        let mut i: usize = 0;
        proof {
            assert(self@.calls.take(self@.calls.len() as int) =~= self@.calls);
        }
        while i < offers.len()
            invariant
                self.wf(),
                self@ == with_stage(old(self)@, self@),
                v0 == old(self)@,
                i <= offers@.len(),
                mask.len() == i,
                r@ == masked(offers@.take(i as int), mask),
                approval_run(v0, self@, offers@.take(i as int), player, check_target, starts),
                forall|k: int|
                    #![trigger mask[k]]
                    0 <= k < i ==> mask[k] == offer_passed(v0, self@.calls, starts[k], offers@[k], check_target),
                forall|k: int|
                    #![trigger starts[k]]
                    0 <= k < i ==> starts[k] + offer_calls(v0, self@.calls, starts[k], offers@[k], check_target)
                        <= self@.calls.len(),
            decreases offers@.len() - i,
        {
            let (card, slot) = offers[i];
            let ghost before = self@;
            let ghost e = self@.calls.len() as int;
            proof {
                assert(offers@.take(i as int + 1).drop_last() =~= offers@.take(i as int));
                assert(mask.push(true).drop_last() =~= mask);
                assert(mask.push(false).drop_last() =~= mask);
            }
            let mut keep = false;
            match self.effect_index(card, slot) {
                Some(idx) => {
                    self.effect_ctx.activator = player;
                    self.effect_ctx.self_card = Some(card);
                    let pass = match self.check_condition(host, idx) {
                        Ok(b) => b,
                        Err(_) => false,
                    };
                    let ghost asked = self@;
                    proof {
                        assert(asked.calls[e] == asked.calls.last());
                    }
                    if pass {
                        if check_target {
                            keep = self.has_legal_target(host, idx);
                            proof {
                                assert(self@.calls[e] == asked.calls[e]);
                                assert(self@.calls[e + 1] == self@.calls.last());
                            }
                        } else {
                            keep = true;
                        }
                    }
                },
                None => {},
            }
            if keep {
                r.push((card, slot));
            }
            proof {
                let w = self@;
                let t = offers@.take(i as int + 1);
                let ns = starts.push(e);
                assert(w.calls.take(e) =~= before.calls);
                assert(w.calls.take(v0.calls.len() as int) =~= v0.calls);
                assert(t[i as int] == (card, slot));
                assert(offer_calls(v0, w.calls, e, t[i as int], check_target) == w.calls.len() - e);
                assert(offer_asked(v0, w.calls, e, t[i as int], player, check_target));
                assert(keep == offer_passed(v0, w.calls, e, t[i as int], check_target));
                assert forall|k: int| #![trigger ns[k]] 0 <= k < t.len() implies {
                    &&& v0.calls.len() <= ns[k]
                    &&& ns[k] + offer_calls(v0, w.calls, ns[k], t[k], check_target) == if k + 1 < t.len() {
                        ns[k + 1]
                    } else {
                        w.calls.len() as int
                    }
                    &&& offer_asked(v0, w.calls, ns[k], t[k], player, check_target)
                } by {
                    if k < i {
                        let old_t = offers@.take(i as int);
                        assert(old_t[k] == t[k]);
                        assert(ns[k] == starts[k]);
                        assert(t[k] == offers@[k]);
                        if offer_calls(v0, before.calls, starts[k], t[k], check_target) > 0 {
                            assert(w.calls[starts[k]] == before.calls[starts[k]]);
                            if offer_calls(v0, before.calls, starts[k], t[k], check_target) == 2 {
                                assert(w.calls[starts[k] + 1] == before.calls[starts[k] + 1]);
                            }
                        }
                    }
                }
                assert(approval_run(v0, w, t, player, check_target, ns));
                let nm = mask.push(keep);
                assert forall|k: int| #![trigger nm[k]] 0 <= k < i + 1 implies nm[k] == offer_passed(
                    v0,
                    w.calls,
                    ns[k],
                    offers@[k],
                    check_target,
                ) by {
                    if k < i {
                        assert(mask[k] == offer_passed(v0, before.calls, starts[k], offers@[k], check_target));
                        if offer_calls(v0, before.calls, starts[k], offers@[k], check_target) > 0 {
                            assert(w.calls[starts[k]] == before.calls[starts[k]]);
                            if offer_calls(v0, before.calls, starts[k], offers@[k], check_target) == 2 {
                                assert(w.calls[starts[k] + 1] == before.calls[starts[k] + 1]);
                            }
                        }
                    }
                }
                assert forall|k: int| #![trigger ns[k]] 0 <= k < i + 1 implies ns[k] + offer_calls(
                    v0,
                    w.calls,
                    ns[k],
                    offers@[k],
                    check_target,
                ) <= w.calls.len() by {
                    if k < i {
                        if offer_calls(v0, before.calls, starts[k], offers@[k], check_target) > 0 {
                            assert(w.calls[starts[k]] == before.calls[starts[k]]);
                        }
                    }
                }
                mask = nm;
                starts = ns;
            }
            i = i + 1;
        }
        proof {
            assert(offers@.take(i as int) =~= offers@);
            let passed = Seq::new(
                offers@.len(),
                |k: int| offer_passed(v0, self@.calls, starts[k], offers@[k], check_target),
            );
            assert(mask =~= passed);
        }
        r
    }

    /// Whether effect `effect`'s `target` stage finds a legal candidate:
    /// run on a throwaway coroutine, a stage that pauses for a selection
    /// must offer at least one card; one that never asks (or fails) has
    /// nothing to target and passes. The offered set is cleared first.
    fn has_legal_target<H: ScriptHost>(&mut self, host: &mut H, effect: usize) -> (b: bool)
        requires
            old(self).wf(),
        ensures
            final(self).wf(),
            final(self)@ == with_stage(old(self)@, final(self)@),
            final(self)@.calls == old(self)@.calls.push(final(self)@.calls.last()),
            final(self)@.calls.last().stage == (Stage::Target { keep: false }),
            final(self)@.calls.last().effect == effect,
            final(self)@.calls.last().handed == (EffectContext {
                candidates: final(self)@.calls.last().handed.candidates,
                ..old(self)@.ctx
            }),
            final(self)@.calls.last().handed.candidates@.len() == 0,
            b == !(final(self)@.calls.last().answer == Ok::<bool, ScriptError>(true)
                && final(self)@.calls.last().returned.candidates@.len() == 0),
            !b ==> final(self)@.ctx.candidates@.len() == 0,
    {
        self.effect_ctx.candidates.clear();
        match self.run_target(host, effect, false) {
            Ok(true) => self.effect_ctx.candidates.len() > 0,
            _ => true,
        }
    }

    /// The cards in `player`'s hand, in hand order.
    fn hand_cards(&self, player: usize) -> (r: Vec<CardId>)
        requires
            player < 2,
        ensures
            r@ == self@.field.hand(player as int),
    {
        let mut r: Vec<CardId> = Vec::new();
        let n = self.hand_count(player);
        let mut i: usize = 0;
        while i < n
            invariant
                player < 2,
                n == self@.field.hand(player as int).len(),
                i <= n,
                r@ == self@.field.hand(player as int).take(i as int),
            decreases n - i,
        {
            match self.hand_card(player, i) {
                Some(c) => r.push(c),
                None => {},
            }
            i = i + 1;
            assert(r@ =~= self@.field.hand(player as int).take(i as int));
        }
        assert(self@.field.hand(player as int).take(i as int) =~= self@.field.hand(player as int));
        r
    }

    /// The effects `player` can activate right now, as `(card, effect slot)`:
    /// `Activate` effects of the cards in their hand, then `Ignition`
    /// effects of the monsters they control, each kept only if its
    /// `condition` passes and its `target` stage has a legal candidate
    /// (`Quick` and `Trigger` effects are never offered here).
    pub fn activatable_effects<H: ScriptHost>(&mut self, player: usize, host: &mut H) -> (r: Vec<(CardId, usize)>)
        requires
            old(self).wf(),
            player < 2,
        ensures
            final(self).wf(),
            final(self)@ == with_stage(old(self)@, final(self)@),
            picked_from(r@, main_offers(old(self)@, player)),
            offers_approved(old(self)@, final(self)@, main_offers(old(self)@, player), player, true, r@),
    {
        let hand = self.hand_cards(player);
        let monsters = self.monster_zone(player);
        let mut all = self.offers_of(&hand, EffectKind::Activate, None);
        let mut from_monsters = self.offers_of(&monsters, EffectKind::Ignition, None);
        all.append(&mut from_monsters);
        self.approved(all, player, true, host)
    }

    /// The spell speed (0..3) of a chain link: its effect's kind with the
    /// owning card's type and subtype; 0 if the card is gone.
    pub fn speed_of(&self, link: &ChainLink) -> (s: u8)
        requires
            self@.card(link.card) is Some ==> link.effect_seq < self@.effects.len(),
        ensures
            s == link_speed(self@, link.card, link.effect_seq),
    {
        match self.card_data(link.card) {
            Some(data) => spell_speed(
                self.effects[link.effect_seq].kind,
                data.card_type,
                data.spell_type,
                data.trap_type,
            ),
            None => 0,
        }
    }

    /// The cards of `player`'s hand whose own activation is fast enough to
    /// respond to a top link of speed `top`.
    fn fast_hand(&self, player: usize, top: u8) -> (r: Vec<CardId>)
        requires
            player < 2,
        ensures
            r@ == self@.field.hand(player as int).filter(|c: CardId| fast_enough(self@, c, top)),
    {
        let hand = self.hand_cards(player);
        let mut r: Vec<CardId> = Vec::new();
        let mut i: usize = 0;
        while i < hand.len()
            invariant
                i <= hand@.len(),
                r@ == hand@.take(i as int).filter(|c: CardId| fast_enough(self@, c, top)),
            decreases hand@.len() - i,
        {
            proof {
                assert(hand@.take(i as int + 1).drop_last() =~= hand@.take(i as int));
                reveal_with_fuel(Seq::filter, 1);
            }
            let card = hand[i];
            let fast = match self.card_data(card) {
                Some(data) => {
                    let s = spell_speed(EffectKind::Activate, data.card_type, data.spell_type, data.trap_type);
                    s >= 2 && s >= top
                },
                None => false,
            };
            if fast {
                r.push(card);
            }
            i = i + 1;
        }
        assert(hand@.take(i as int) =~= hand@);
        r
    }

    /// What `player` may activate in response when the top link has speed
    /// `top` (see [`Duel::chainable_effects`]).
    fn chainable_at<H: ScriptHost>(&mut self, player: usize, top: u8, host: &mut H) -> (r: Vec<(CardId, usize)>)
        requires
            old(self).wf(),
            player < 2,
        ensures
            final(self).wf(),
            final(self)@ == with_stage(old(self)@, final(self)@),
            picked_from(r@, chain_offers(old(self)@, player, top)),
            offers_approved(old(self)@, final(self)@, chain_offers(old(self)@, player, top), player, true, r@),
            forall|i: int| 0 <= i < r@.len() ==> fast_enough(old(self)@, #[trigger] r@[i].0, top),
    {
        let hand = self.fast_hand(player, top);
        let all = self.offers_of(&hand, EffectKind::Activate, None);
        let ghost v0 = self@;
        let r = self.approved(all, player, true, host);
        proof {
            let s = chain_offers(v0, player, top);
            let mask = choose|mask: Seq<bool>| #![trigger masked(s, mask)] mask.len() == s.len() && r@ == masked(s, mask);
            lemma_masked_in(s, mask);
            lemma_offers_cards(v0, hand@, EffectKind::Activate, None);
            assert forall|i: int| 0 <= i < r@.len() implies fast_enough(v0, #[trigger] r@[i].0, top) by {
                assert(s.contains(masked(s, mask)[i]));
                let c = r@[i].0;
                assert(hand@.contains(c));
                let k = choose|k: int| 0 <= k < hand@.len() && hand@[k] == c;
                v0.field.hand(player as int).filter_lemma(|c: CardId| fast_enough(v0, c, top));
            }
        }
        r
    }

    /// The effects `player` may activate in response to the chain whose top
    /// link is `chain_link`: `Activate` effects in their hand whose speed is
    /// at least 2 and at least the top link's, each kept only if its
    /// `condition` passes and its `target` stage has a legal candidate.
    pub fn chainable_effects<H: ScriptHost>(&mut self, player: usize, chain_link: &ChainLink, host: &mut H) -> (r: Vec<(
        CardId,
        usize,
    )>)
        requires
            old(self).wf(),
            player < 2,
            old(self)@.card(chain_link.card) is Some ==> chain_link.effect_seq < old(self)@.effects.len(),
        ensures
            final(self).wf(),
            final(self)@ == with_stage(old(self)@, final(self)@),
            picked_from(r@, chain_offers(old(self)@, player, link_speed(old(self)@, chain_link.card, chain_link.effect_seq))),
            offers_approved(
                old(self)@,
                final(self)@,
                chain_offers(old(self)@, player, link_speed(old(self)@, chain_link.card, chain_link.effect_seq)),
                player,
                true,
                r@,
            ),
            forall|i: int| 0 <= i < r@.len() ==> fast_enough(
                old(self)@,
                #[trigger] r@[i].0,
                link_speed(old(self)@, chain_link.card, chain_link.effect_seq),
            ),
    {
        let top = self.speed_of(chain_link);
        self.chainable_at(player, top, host)
    }

    /// `Quick` effects in `player`'s hand keyed to `timing`, each kept only
    /// if its `condition` passes: what may start a chain at a timing window
    /// (no top link to gate against; a quick effect is fast enough to open).
    fn timed_hand_quick_effects<H: ScriptHost>(&mut self, player: usize, timing: u32, host: &mut H) -> (r: Vec<(
        CardId,
        usize,
    )>)
        requires
            old(self).wf(),
            player < 2,
        ensures
            final(self).wf(),
            final(self)@ == with_stage(old(self)@, final(self)@),
            picked_from(r@, timed_offers(old(self)@, player, timing)),
            offers_approved(old(self)@, final(self)@, timed_offers(old(self)@, player, timing), player, false, r@),
    {
        let hand = self.hand_cards(player);
        let all = self.offers_of(&hand, EffectKind::Quick, Some(timing));
        self.approved(all, player, false, host)
    }

    /// The effects `player` may activate in whatever response window is
    /// open: with a chain building, those fast enough for its top link;
    /// with no chain but a timing window open, the quick effects keyed to
    /// it; otherwise none.
    pub fn response_options_for<H: ScriptHost>(&mut self, player: usize, host: &mut H) -> (r: Vec<(CardId, usize)>)
        requires
            old(self).wf(),
            Duel::sound(old(self)@),
            player < 2,
        ensures
            final(self).wf(),
            options_offered(old(self)@, final(self)@, player, r@),
            final(self)@ == with_stage(old(self)@, final(self)@),
            old(self)@.chain.len() > 0 ==> picked_from(
                r@,
                chain_offers(
                    old(self)@,
                    player,
                    link_speed(old(self)@, old(self)@.chain.last().card, old(self)@.chain.last().effect_seq),
                ),
            ),
            old(self)@.chain.len() == 0 ==> match old(self)@.window_timing {
                Some(t) => picked_from(r@, timed_offers(old(self)@, player, t)),
                None => r@.len() == 0,
            },
    {
        let n = self.chain.len();
        if n > 0 {
            let top = self.speed_of(&self.chain[n - 1]);
            self.chainable_at(player, top, host)
        } else {
            match self.window_timing {
                Some(t) => self.timed_hand_quick_effects(player, t, host),
                None => Vec::new(),
            }
        }
    }

    /// The effects the current responder may activate in the open window
    /// (what a `MSG_SELECT_CHAIN` prompt offers besides "pass").
    pub fn chain_response_options<H: ScriptHost>(&mut self, host: &mut H) -> (r: Vec<(CardId, usize)>)
        requires
            old(self).wf(),
            Duel::sound(old(self)@),
        ensures
            final(self).wf(),
            final(self)@ == with_stage(old(self)@, final(self)@),
            old(self)@.chain.len() > 0 ==> picked_from(
                r@,
                chain_offers(
                    old(self)@,
                    old(self)@.responder,
                    link_speed(old(self)@, old(self)@.chain.last().card, old(self)@.chain.last().effect_seq),
                ),
            ),
            old(self)@.chain.len() == 0 ==> match old(self)@.window_timing {
                Some(t) => picked_from(r@, timed_offers(old(self)@, old(self)@.responder, t)),
                None => r@.len() == 0,
            },
    {
        let p = self.responder;
        self.response_options_for(p, host)
    }

    /// The controller of each link on the chain, link 1 first.
    pub fn chain_activators(&self) -> (r: Vec<usize>)
        ensures
            r@ == self@.chain.map_values(|l: ChainLink| l.activator),
    {
        let mut r: Vec<usize> = Vec::new();
        let mut i: usize = 0;
        while i < self.chain.len()
            invariant
                i <= self@.chain.len(),
                r@ == self@.chain.take(i as int).map_values(|l: ChainLink| l.activator),
            decreases self@.chain.len() - i,
        {
            r.push(self.chain[i].activator);
            i = i + 1;
            assert(r@ =~= self@.chain.take(i as int).map_values(|l: ChainLink| l.activator));
        }
        assert(self@.chain.take(i as int) =~= self@.chain);
        r
    }

    /// The player whose chain-response window is open.
    pub fn chain_responder(&self) -> (p: usize)
        ensures
            p == self@.responder,
    {
        self.responder
    }

    // ===== Selection ========================================================

    /// Set the targets of the effect about to resolve.
    pub fn set_targets(&mut self, targets: Vec<CardId>)
        requires
            old(self).wf(),
        ensures
            final(self).wf(),
            final(self)@ == (DuelView {
                ctx: EffectContext { targets, ..old(self)@.ctx },
                ..old(self)@
            }),
    {
        self.effect_ctx.targets = targets;
    }

    /// The candidates offered by the effect awaiting a selection (what a
    /// `MSG_SELECT_CARD` prompt asks you to pick from).
    pub fn candidates(&self) -> (r: Vec<CardId>)
        ensures
            r@ == self@.ctx.candidates@,
    {
        let mut r: Vec<CardId> = Vec::new();
        let mut i: usize = 0;
        while i < self.effect_ctx.candidates.len()
            invariant
                i <= self@.ctx.candidates@.len(),
                r@ == self@.ctx.candidates@.take(i as int),
            decreases self@.ctx.candidates@.len() - i,
        {
            r.push(self.effect_ctx.candidates[i]);
            i = i + 1;
            assert(r@ =~= self@.ctx.candidates@.take(i as int));
        }
        r
    }

    /// Pick the effect's targets by index into the offered candidates.
    pub fn answer_selection(&mut self, indices: Vec<usize>)
        requires
            old(self).wf(),
            forall|i: int| 0 <= i < indices@.len() ==> indices@[i] < old(self)@.ctx.candidates@.len(),
        ensures
            final(self).wf(),
            final(self)@.ctx.targets@ == indices@.map_values(
                |i: usize| old(self)@.ctx.candidates@[i as int],
            ),
            final(self)@ == (DuelView {
                ctx: EffectContext { targets: final(self)@.ctx.targets, ..old(self)@.ctx },
                ..old(self)@
            }),
    {
        let mut targets: Vec<CardId> = Vec::new();
        let mut i: usize = 0;
        while i < indices.len()
            invariant
                i <= indices@.len(),
                forall|j: int| 0 <= j < indices@.len() ==> indices@[j] < self@.ctx.candidates@.len(),
                targets@ == indices@.take(i as int).map_values(
                    |i: usize| self@.ctx.candidates@[i as int],
                ),
            decreases indices@.len() - i,
        {
            targets.push(self.effect_ctx.candidates[indices[i]]);
            i = i + 1;
            assert(targets@ =~= indices@.take(i as int).map_values(
                |i: usize| self@.ctx.candidates@[i as int],
            ));
        }
        assert(indices@.take(i as int) =~= indices@);
        self.set_targets(targets);
    }

    // ===== Costs ============================================================

    /// Whether `player` can currently pay `cost`.
    fn can_pay(&self, cost: &CostType, player: usize) -> (b: bool)
        requires
            self.wf(),
            player < 2,
        ensures
            b == payable(self@, *cost, player),
    {
        match cost {
            CostType::LifePoints(n) => self.life_points(player) >= *n,
            CostType::Discard(card) => match self.zone_of(*card) {
                Some(Zone::Hand) => true,
                _ => false,
            },
        }
    }

    /// Apply a cost that has already been checked payable.
    fn apply_cost(&mut self, cost: &CostType, player: usize)
        requires
            old(self).wf(),
            Duel::sound(old(self)@),
            player < 2,
        ensures
            final(self).wf(),
            Duel::sound(final(self)@),
            cost_step(old(self)@, final(self)@, *cost, player),
            lp_down(old(self)@, final(self)@),
            old(self)@.lps.len() == final(self)@.lps.len(),
    {
        match cost {
            CostType::LifePoints(n) => self.pay_lp(player, *n),
            CostType::Discard(card) => {
                proof {
                    self@.field.lemma_players_piles(*card);
                }
                self.send_to(*card, Zone::GY);
                proof {
                    crate::field::Field::lemma_send_keeps_players(&old(self)@.field, &self@.field, *card, Zone::GY);
                }
            },
        }
    }

    /// Commit `costs` for `player`, but only if every one is payable now:
    /// returns `false` and changes nothing otherwise.
    pub fn commit_costs(&mut self, costs: &Vec<CostType>, player: usize) -> (ok: bool)
        requires
            old(self).wf(),
            Duel::sound(old(self)@),
            player < 2,
        ensures
            final(self).wf(),
            Duel::sound(final(self)@),
            ok == forall|i: int| 0 <= i < costs@.len() ==> payable(old(self)@, #[trigger] costs@[i], player),
            ok ==> costs_applied(old(self)@, final(self)@, costs@, player),
            !ok ==> final(self)@ == old(self)@,
            cost_frame(old(self)@, final(self)@),
            lp_down(old(self)@, final(self)@),
    {
        let mut i: usize = 0;
        while i < costs.len()
            invariant
                self.wf(),
                self@ == old(self)@,
                Duel::sound(self@),
                player < 2,
                i <= costs@.len(),
                forall|j: int| 0 <= j < i ==> payable(self@, #[trigger] costs@[j], player),
            decreases costs@.len() - i,
        {
            if !self.can_pay(&costs[i], player) {
                return false;
            }
            i = i + 1;
        }
        let ghost v0 = self@;
        let mut j: usize = 0;
        while j < costs.len()
            invariant
                self.wf(),
                Duel::sound(self@),
                player < 2,
                j <= costs@.len(),
                costs_applied(v0, self@, costs@.take(j as int), player),
                cost_frame(v0, self@),
                lp_down(v0, self@),
                v0 == old(self)@,
            decreases costs@.len() - j,
        {
            let ghost before = self@;
            self.apply_cost(&costs[j], player);
            proof {
                assert(lp_down(before, self@));
                let t = costs@.take(j as int + 1);
                assert(t.drop_last() =~= costs@.take(j as int));
                assert(costs_applied(v0, before, t.drop_last(), player));
                assert(cost_step(before, self@, t.last(), player));
            }
            j = j + 1;
        }
        assert(costs@.take(j as int) =~= costs@);
        true
    }

    // ===== Running stages in the host =======================================
    // The context moves into the host for the call and back afterwards;
    // nothing else in the duel changes.

    fn check_condition<H: ScriptHost>(&mut self, host: &mut H, effect: usize) -> (r: Result<bool, ScriptError>)
        requires
            old(self).wf(),
        ensures
            final(self).wf(),
            final(self)@ == (DuelView {
                ctx: final(self)@.ctx,
                calls: old(self)@.calls.push(
                    HostCall {
                        stage: Stage::Condition,
                        effect: effect,
                        handed: old(self)@.ctx,
                        returned: final(self)@.ctx,
                        answer: r,
                    },
                ),
                ..old(self)@
            }),
    {
        let ghost handed = self@.ctx;
        let mut ctx = EffectContext::default();
        std::mem::swap(&mut ctx, &mut self.effect_ctx);
        let r = host.condition(&*self, &mut ctx, effect);
        std::mem::swap(&mut ctx, &mut self.effect_ctx);
        let ghost call = HostCall {
            stage: Stage::Condition,
            effect: effect,
            handed,
            returned: self@.ctx,
            answer: r,
        };
        self.host_calls = Ghost(self.host_calls@.push(call));
        r
    }

    fn run_target<H: ScriptHost>(&mut self, host: &mut H, effect: usize, keep: bool) -> (r: Result<bool, ScriptError>)
        requires
            old(self).wf(),
        ensures
            final(self).wf(),
            final(self)@ == (DuelView {
                ctx: final(self)@.ctx,
                calls: old(self)@.calls.push(
                    HostCall {
                        stage: Stage::Target { keep },
                        effect: effect,
                        handed: old(self)@.ctx,
                        returned: final(self)@.ctx,
                        answer: r,
                    },
                ),
                ..old(self)@
            }),
    {
        let ghost handed = self@.ctx;
        let mut ctx = EffectContext::default();
        std::mem::swap(&mut ctx, &mut self.effect_ctx);
        let r = host.target(&*self, &mut ctx, effect, keep);
        std::mem::swap(&mut ctx, &mut self.effect_ctx);
        let ghost call = HostCall {
            stage: Stage::Target { keep },
            effect: effect,
            handed,
            returned: self@.ctx,
            answer: r,
        };
        self.host_calls = Ghost(self.host_calls@.push(call));
        r
    }

    fn run_resume<H: ScriptHost>(&mut self, host: &mut H) -> (r: Result<(), ScriptError>)
        requires
            old(self).wf(),
        ensures
            final(self).wf(),
            final(self)@ == (DuelView {
                ctx: final(self)@.ctx,
                calls: old(self)@.calls.push(
                    HostCall {
                        stage: Stage::Resume,
                        effect: 0,
                        handed: old(self)@.ctx,
                        returned: final(self)@.ctx,
                        answer: ran_through(r),
                    },
                ),
                ..old(self)@
            }),
    {
        let ghost handed = self@.ctx;
        let mut ctx = EffectContext::default();
        std::mem::swap(&mut ctx, &mut self.effect_ctx);
        let r = host.resume(&*self, &mut ctx);
        std::mem::swap(&mut ctx, &mut self.effect_ctx);
        let ghost call = HostCall {
            stage: Stage::Resume,
            effect: 0,
            handed,
            returned: self@.ctx,
            answer: ran_through(r),
        };
        self.host_calls = Ghost(self.host_calls@.push(call));
        r
    }

    fn run_cost<H: ScriptHost>(&mut self, host: &mut H, effect: usize) -> (r: Result<(), ScriptError>)
        requires
            old(self).wf(),
        ensures
            final(self).wf(),
            final(self)@ == (DuelView {
                ctx: final(self)@.ctx,
                calls: old(self)@.calls.push(
                    HostCall {
                        stage: Stage::Cost,
                        effect: effect,
                        handed: old(self)@.ctx,
                        returned: final(self)@.ctx,
                        answer: ran_through(r),
                    },
                ),
                ..old(self)@
            }),
    {
        let ghost handed = self@.ctx;
        let mut ctx = EffectContext::default();
        std::mem::swap(&mut ctx, &mut self.effect_ctx);
        let r = host.cost(&*self, &mut ctx, effect);
        std::mem::swap(&mut ctx, &mut self.effect_ctx);
        let ghost call = HostCall {
            stage: Stage::Cost,
            effect: effect,
            handed,
            returned: self@.ctx,
            answer: ran_through(r),
        };
        self.host_calls = Ghost(self.host_calls@.push(call));
        r
    }

    fn run_resolve<H: ScriptHost>(&mut self, host: &mut H, effect: usize) -> (r: Result<(), ScriptError>)
        requires
            old(self).wf(),
        ensures
            final(self).wf(),
            final(self)@ == (DuelView {
                ctx: final(self)@.ctx,
                calls: old(self)@.calls.push(
                    HostCall {
                        stage: Stage::Resolve,
                        effect: effect,
                        handed: old(self)@.ctx,
                        returned: final(self)@.ctx,
                        answer: ran_through(r),
                    },
                ),
                ..old(self)@
            }),
    {
        let ghost handed = self@.ctx;
        let mut ctx = EffectContext::default();
        std::mem::swap(&mut ctx, &mut self.effect_ctx);
        let r = host.resolve(&*self, &mut ctx, effect);
        std::mem::swap(&mut ctx, &mut self.effect_ctx);
        let ghost call = HostCall {
            stage: Stage::Resolve,
            effect: effect,
            handed,
            returned: self@.ctx,
            answer: ran_through(r),
        };
        self.host_calls = Ghost(self.host_calls@.push(call));
        r
    }

    fn run_fire<H: ScriptHost>(&mut self, host: &mut H, handle: usize) -> (r: Result<(), ScriptError>)
        requires
            old(self).wf(),
        ensures
            final(self).wf(),
            final(self)@ == (DuelView {
                ctx: final(self)@.ctx,
                calls: old(self)@.calls.push(
                    HostCall {
                        stage: Stage::Fire,
                        effect: handle,
                        handed: old(self)@.ctx,
                        returned: final(self)@.ctx,
                        answer: ran_through(r),
                    },
                ),
                ..old(self)@
            }),
    {
        let ghost handed = self@.ctx;
        let mut ctx = EffectContext::default();
        std::mem::swap(&mut ctx, &mut self.effect_ctx);
        let r = host.fire(&*self, &mut ctx, handle);
        std::mem::swap(&mut ctx, &mut self.effect_ctx);
        let ghost call = HostCall {
            stage: Stage::Fire,
            effect: handle,
            handed,
            returned: self@.ctx,
            answer: ran_through(r),
        };
        self.host_calls = Ghost(self.host_calls@.push(call));
        r
    }

    // ===== Applying what a stage recorded ===================================

    /// Destroy, by effect, the cards the stage recorded to destroy (in order);
    /// the list is left empty.
    fn handle_destroys(&mut self)
        requires
            old(self).wf(),
            Duel::sound(old(self)@),
        ensures
            final(self)@.calls == old(self)@.calls,
            final(self).wf(),
            Duel::sound(final(self)@),
            destroyed_seq(with_ctx(old(self)@, final(self)@.ctx), final(self)@, old(self)@.ctx.to_destroy@, REASON_EFFECT),
            final(self)@.ctx == (EffectContext { to_destroy: final(self)@.ctx.to_destroy, ..old(self)@.ctx }),
            final(self)@.ctx.to_destroy@.len() == 0,
            Duel::script_frame(old(self)@, final(self)@),
            final(self)@.player_mods == old(self)@.player_mods,
            final(self)@.subscriptions == old(self)@.subscriptions,
    {
        let mut to_destroy: Vec<CardId> = Vec::new();
        std::mem::swap(&mut to_destroy, &mut self.effect_ctx.to_destroy);
        let ghost v0 = self@;
        let mut i: usize = 0;
        while i < to_destroy.len()
            invariant
                self@.calls == old(self)@.calls,
                self.wf(),
                Duel::sound(self@),
                i <= to_destroy@.len(),
                destroyed_seq(v0, self@, to_destroy@.take(i as int), REASON_EFFECT),
                Duel::script_frame(v0, self@),
                Duel::script_frame(old(self)@, v0),
                self@.ctx == v0.ctx,
                self@.player_mods == v0.player_mods,
                self@.subscriptions == v0.subscriptions,
                v0.player_mods == old(self)@.player_mods,
                v0.subscriptions == old(self)@.subscriptions,
            decreases to_destroy@.len() - i,
        {
            let ghost before = self@;
            let card = to_destroy[i];
            proof {
                self@.field.lemma_players_piles(card);
            }
            self.destroy(card, REASON_EFFECT);
            proof {
                let t = to_destroy@.take(i as int + 1);
                assert(t.drop_last() =~= to_destroy@.take(i as int));
                assert(destroyed_seq(v0, before, t.drop_last(), REASON_EFFECT));
                assert(t.last() == card);
                assert(Duel::destroy_step(before, self@, t.last(), REASON_EFFECT));
                Duel::lemma_destroy_keeps_small(before, self@, card, REASON_EFFECT);
            }
            i = i + 1;
        }
        assert(to_destroy@.take(i as int) =~= to_destroy@);
        assert(v0 == with_ctx(old(self)@, self@.ctx));
    }

    /// Make the plain moves the stage recorded (in order): relocations, not
    /// destructions. The list is left empty.
    fn handle_moves(&mut self)
        requires
            old(self).wf(),
            Duel::sound(old(self)@),
        ensures
            final(self)@.calls == old(self)@.calls,
            final(self).wf(),
            Duel::sound(final(self)@),
            moved_seq(with_ctx(old(self)@, final(self)@.ctx), final(self)@, old(self)@.ctx.to_move@),
            final(self)@.ctx == (EffectContext { to_move: final(self)@.ctx.to_move, ..old(self)@.ctx }),
            final(self)@.ctx.to_move@.len() == 0,
            Duel::script_frame(old(self)@, final(self)@),
            final(self)@.player_mods == old(self)@.player_mods,
            final(self)@.subscriptions == old(self)@.subscriptions,
    {
        let mut to_move: Vec<(CardId, Zone)> = Vec::new();
        std::mem::swap(&mut to_move, &mut self.effect_ctx.to_move);
        let ghost d = self@;
        let mut j: usize = 0;
        while j < to_move.len()
            invariant
                self@.calls == old(self)@.calls,
                self.wf(),
                Duel::sound(self@),
                j <= to_move@.len(),
                moved_seq(d, self@, to_move@.take(j as int)),
                Duel::script_frame(d, self@),
                Duel::script_frame(old(self)@, d),
                self@.ctx == d.ctx,
                self@.player_mods == d.player_mods,
                self@.subscriptions == d.subscriptions,
                d.player_mods == old(self)@.player_mods,
                d.subscriptions == old(self)@.subscriptions,
            decreases to_move@.len() - j,
        {
            let ghost before = self@;
            let (card, zone) = to_move[j];
            proof {
                self@.field.lemma_players_piles(card);
            }
            self.send_to(card, zone);
            proof {
                crate::field::Field::lemma_send_keeps_players(&before.field, &self@.field, card, zone);
                let t = to_move@.take(j as int + 1);
                assert(t.drop_last() =~= to_move@.take(j as int));
                assert(moved_seq(d, before, t.drop_last()));
                assert(t.last() == (card, zone));
                assert(send_step(before, self@, t.last().0, t.last().1));
                lemma_moved_more(d, before, self@, t);
            }
            j = j + 1;
        }
        assert(to_move@.take(j as int) =~= to_move@);
        assert(d == with_ctx(old(self)@, self@.ctx));
    }

    /// Apply the modifier and rule intents the stage recorded: grant player
    /// modifiers (a grant to a player other than 0 or 1 is dropped), remove
    /// modifiers by id, and queue the new rules after the existing ones (see
    /// [`script_ops_applied`]). The three lists are left empty.
    fn apply_script_ops(&mut self)
        requires
            old(self).wf(),
            Duel::sound(old(self)@),
        ensures
            final(self)@.calls == old(self)@.calls,
            final(self).wf(),
            Duel::sound(final(self)@),
            script_ops_applied(
                with_ctx(old(self)@, final(self)@.ctx),
                final(self)@,
                old(self)@.ctx.player_mods_to_add@,
                old(self)@.ctx.mods_to_remove@,
                old(self)@.ctx.subscriptions_to_add@,
            ),
            final(self)@.ctx == (EffectContext {
                player_mods_to_add: final(self)@.ctx.player_mods_to_add,
                mods_to_remove: final(self)@.ctx.mods_to_remove,
                subscriptions_to_add: final(self)@.ctx.subscriptions_to_add,
                ..old(self)@.ctx
            }),
            final(self)@.ctx.player_mods_to_add@.len() == 0,
            final(self)@.ctx.mods_to_remove@.len() == 0,
            final(self)@.ctx.subscriptions_to_add@.len() == 0,
            Duel::script_frame(old(self)@, final(self)@),
            final(self)@.field == old(self)@.field,
            final(self)@.events == old(self)@.events,
    {
        let mut adds: Vec<(u32, usize, CardId, ModifierType)> = Vec::new();
        std::mem::swap(&mut adds, &mut self.effect_ctx.player_mods_to_add);
        let mut removes: Vec<u32> = Vec::new();
        std::mem::swap(&mut removes, &mut self.effect_ctx.mods_to_remove);
        let mut subs: Vec<Subscription> = Vec::new();
        std::mem::swap(&mut subs, &mut self.effect_ctx.subscriptions_to_add);
        let ghost m = self@;
        assert(m == with_ctx(old(self)@, m.ctx));
        // Grant player modifiers.
        let mut a: usize = 0;
        while a < adds.len()
            invariant
                self@.calls == old(self)@.calls,
                self.wf(),
                Duel::sound(self@),
                a <= adds@.len(),
                Duel::sound(m),
                self@ == (DuelView { player_mods: granted(m.player_mods, adds@.take(a as int)), ..m }),
            decreases adds@.len() - a,
        {
            let (id, player, source, mod_type) = adds[a];
            proof {
                assert(adds@.take(a as int + 1).drop_last() =~= adds@.take(a as int));
            }
            if player < 2 {
                self.player_modifiers[player].push(Modifier { id, source, mod_type });
            }
            a = a + 1;
            proof {
                assert(self@.player_mods =~= granted(m.player_mods, adds@.take(a as int)));
            }
        }
        assert(adds@.take(a as int) =~= adds@);
        let ghost g = self@;
        // Remove modifiers by id.
        let mut r: usize = 0;
        while r < removes.len()
            invariant
                self@.calls == old(self)@.calls,
                self.wf(),
                Duel::sound(self@),
                r <= removes@.len(),
                removed_seq(g, self@, removes@.take(r as int)),
                Duel::script_frame(g, self@),
                self@.field == g.field,
                self@.events == g.events,
                self@.ctx == g.ctx,
                self@.subscriptions == g.subscriptions,
            decreases removes@.len() - r,
        {
            let ghost before = self@;
            self.remove_modifier(removes[r]);
            proof {
                let t = removes@.take(r as int + 1);
                assert(t.drop_last() =~= removes@.take(r as int));
                assert(removed_seq(g, before, t.drop_last()));
                assert(remove_step(before, self@, t.last()));
                Duel::lemma_remove_keeps_small(before, self@, removes@[r as int]);
            }
            r = r + 1;
        }
        assert(removes@.take(r as int) =~= removes@);
        let ghost rv = self@;
        // Queue rules.
        let mut q: usize = 0;
        while q < subs.len()
            invariant
                self@.calls == old(self)@.calls,
                self.wf(),
                Duel::sound(self@),
                q <= subs@.len(),
                Duel::sound(rv),
                self@ == (DuelView { subscriptions: rv.subscriptions + subs@.take(q as int), ..rv }),
            decreases subs@.len() - q,
        {
            self.subscriptions.push(subs[q]);
            q = q + 1;
            proof {
                assert(self@.subscriptions =~= rv.subscriptions + subs@.take(q as int));
            }
        }
        assert(subs@.take(q as int) =~= subs@);
        assert(removed_seq(DuelView { player_mods: granted(m.player_mods, adds@), ..m }, rv, removes@));
    }

    /// Destroying a card keeps every card's stats small and the chain, the
    /// stack and the turn record as they were.
    proof fn lemma_destroy_keeps_small(v: DuelView, w: DuelView, card: CardId, reason: Reason)
        requires
            Duel::sound(v),
            Duel::destroy_step(v, w, card, reason),
            w.field.players_in_range(),
        ensures
            Duel::sound(w),
    {
        assert forall|k: u64| #[trigger] w.cards.contains_key(k) implies super::board::small_card(w.cards[k]) by {
            assert(v.cards.contains_key(k));
        }
    }

    /// Removing a modifier keeps every card's stats small.
    proof fn lemma_remove_keeps_small(v: DuelView, w: DuelView, id: u32)
        requires
            Duel::sound(v),
            remove_step(v, w, id),
        ensures
            Duel::sound(w),
    {
        assert forall|k: u64| #[trigger] w.cards.contains_key(k) implies super::board::small_card(w.cards[k]) by {
            let c = v.cards[k];
            super::board::lemma_filter_small(c.data.atk, c.modifiers@, true, |m: Modifier| m.id != id);
            super::board::lemma_filter_small(c.data.def, c.modifiers@, false, |m: Modifier| m.id != id);
        }
    }

    // ===== Costs and resolution through the host ============================

    /// Run effect `effect_idx`'s `cost` stage (handed the current effect
    /// context) and commit the costs it declared, but only if `player` can
    /// afford all of them: `Ok(false)` pays nothing. A script error pays
    /// nothing either. The context is then the one the stage handed back,
    /// with its declared costs taken out.
    pub fn pay_cost<H: ScriptHost>(&mut self, effect_idx: usize, player: usize, host: &mut H) -> (r: Result<bool, ScriptError>)
        requires
            old(self).wf(),
            Duel::sound(old(self)@),
            player < 2,
            effect_idx < old(self)@.effects.len(),
        ensures
            final(self).wf(),
            Duel::sound(final(self)@),
            called(old(self)@, final(self)@, Stage::Cost, effect_idx),
            match final(self)@.calls.last().answer {
                Err(e) => r == Err::<bool, ScriptError>(e) && final(self)@.ctx == final(self)@.calls.last().returned,
                Ok(_) => {
                    &&& r == Ok::<bool, ScriptError>(all_payable(old(self)@, declared_costs(final(self)@), player))
                    &&& final(self)@.ctx == (EffectContext { costs: final(self)@.ctx.costs, ..final(self)@.calls.last().returned })
                    &&& final(self)@.ctx.costs@.len() == 0
                },
            },
            r != Ok::<bool, ScriptError>(true) ==> final(self)@ == with_stage(old(self)@, final(self)@),
            r == Ok::<bool, ScriptError>(true) ==> costs_applied(
                with_stage(old(self)@, final(self)@),
                final(self)@,
                declared_costs(final(self)@),
                player,
            ),
            cost_frame(with_stage(old(self)@, final(self)@), final(self)@),
            lp_down(old(self)@, final(self)@),
    {
        let r = self.run_cost(host, effect_idx);
        match r {
            Err(e) => {
                return Err(e);
            },
            Ok(()) => {},
        }
        let ghost ran = self@;
        let mut costs: Vec<CostType> = Vec::new();
        std::mem::swap(&mut costs, &mut self.effect_ctx.costs);
        let ghost mid = self@;
        proof {
            assert(costs@ == declared_costs(ran));
            assert(mid == with_stage(old(self)@, mid));
            Duel::lemma_sound_same(old(self)@, mid);
        }
        let ok = self.commit_costs(&costs, player);
        proof {
            assert(all_payable(old(self)@, costs@, player) == all_payable(mid, costs@, player));
            assert(self@.calls == ran.calls);
            assert(self@.ctx == mid.ctx);
            assert(with_stage(old(self)@, self@) == mid);
        }
        Ok(ok)
    }

    /// Run effect `effect_idx`'s `resolve` stage (handed the current effect
    /// context), then apply what it recorded in the context it handed back
    /// (see [`intents_applied`]). A script error applies nothing.
    pub fn resolve_effect<H: ScriptHost>(&mut self, effect_idx: usize, host: &mut H) -> (r: Result<(), ScriptError>)
        requires
            old(self).wf(),
            Duel::sound(old(self)@),
            effect_idx < old(self)@.effects.len(),
        ensures
            final(self).wf(),
            Duel::sound(final(self)@),
            Duel::script_frame(old(self)@, final(self)@),
            stage_applied(old(self)@, final(self)@, effect_idx),
            ran_through(r) == final(self)@.calls.last().answer,
    {
        let r = self.run_resolve(host, effect_idx);
        match r {
            Err(e) => {
                return Err(e);
            },
            Ok(()) => {},
        }
        let ghost c = self@.ctx;
        let ghost v0 = self@;
        self.handle_destroys();
        let ghost d = self@;
        self.handle_moves();
        let ghost m = self@;
        self.apply_script_ops();
        proof {
            let fc = self@.ctx;
            assert(with_ctx(with_ctx(v0, d.ctx), fc) == with_ctx(v0, fc));
            lemma_destroyed_ctx(with_ctx(v0, d.ctx), d, c.to_destroy@, REASON_EFFECT, fc);
            assert(with_ctx(d, m.ctx) == with_ctx(with_ctx(d, m.ctx), m.ctx));
            lemma_moved_ctx(with_ctx(d, m.ctx), m, d.ctx.to_move@, fc);
            assert(with_ctx(with_ctx(d, m.ctx), fc) == with_ctx(d, fc));
            assert(with_stage(old(self)@, self@) == with_ctx(v0, fc));
            assert(intents_applied(
                with_ctx(v0, fc),
                self@,
                c.to_destroy@,
                c.to_move@,
                c.player_mods_to_add@,
                c.mods_to_remove@,
                c.subscriptions_to_add@,
            ));
        }
        Ok(())
    }

    /// Raise `event` for the queued rules: run each rule keyed to it (in
    /// queue order) and apply what it recorded; keep the others, and the fired
    /// ones with firings left (see [`survivors`]); rules queued while firing
    /// come after those.
    pub fn fire_subscriptions<H: ScriptHost>(&mut self, event: u32, host: &mut H)
        requires
            old(self).wf(),
            Duel::sound(old(self)@),
        ensures
            final(self).wf(),
            Duel::sound(final(self)@),
            rules_fired(old(self)@, final(self)@, event),
            Duel::script_frame(old(self)@, final(self)@),
            final(self)@.subscriptions.len() >= survivors(old(self)@.subscriptions, event).len(),
            final(self)@.subscriptions.take(survivors(old(self)@.subscriptions, event).len() as int)
                == survivors(old(self)@.subscriptions, event),
    {
        let ghost s0 = self@.subscriptions;
        let mut subs: Vec<Subscription> = Vec::new();
        std::mem::swap(&mut subs, &mut self.subscriptions);
        assert(self@ == DuelView { subscriptions: Seq::empty(), ..old(self)@ });
        let mut keep: Vec<Subscription> = Vec::new();
        let mut fired: Vec<Subscription> = Vec::new();
        let mut i: usize = 0;
        while i < subs.len()
            invariant
                self.wf(),
                Duel::sound(self@),
                Duel::script_frame(old(self)@, self@),
                i <= subs@.len(),
                keep@ == subs@.take(i as int).filter(|s: Subscription| s.event != event),
                fired@ == subs@.take(i as int).filter(|s: Subscription| s.event == event),
            decreases subs@.len() - i,
        {
            proof {
                assert(subs@.take(i as int + 1).drop_last() =~= subs@.take(i as int));
                reveal_with_fuel(Seq::filter, 1);
            }
            if subs[i].event == event {
                fired.push(subs[i]);
            } else {
                keep.push(subs[i]);
            }
            i = i + 1;
        }
        assert(subs@.take(i as int) =~= subs@);
        let ghost kept0 = keep@;

        let ghost start = self@;
        let ghost mut states: Seq<DuelView> = seq![start];
        proof {
            assert(fired@ == keyed_rules(s0, event));
        }
        let mut j: usize = 0;
        while j < fired.len()
            invariant
                self.wf(),
                Duel::sound(self@),
                Duel::script_frame(old(self)@, self@),
                start == (DuelView { subscriptions: Seq::empty(), ..old(self)@ }),
                rule_steps(start, self@, fired@.take(j as int), states),
                j <= fired@.len(),
                keep@ == kept0 + fired@.take(j as int).filter(|s: Subscription| s.remaining > 1).map_values(
                    |s: Subscription| Subscription { remaining: (s.remaining - 1) as u32, ..s },
                ),
            decreases fired@.len() - j,
        {
            let sub = fired[j];
            let ghost mid = self@;
            let _ = self.run_fire(host, sub.handle);
            let ghost ran = self@;
            self.apply_script_ops();
            proof {
                assert(fired@.take(j as int + 1).drop_last() =~= fired@.take(j as int));
                assert(fired@.take(j as int + 1).last() == sub);
                assert(with_ctx(ran, self@.ctx) == with_stage(mid, self@));
                let rules = fired@.take(j as int + 1);
                assert(rule_step(mid, self@, sub));
                let states2 = states.push(self@);
                assert forall|k: int| #![trigger rules[k]] 0 <= k < rules.len() implies rule_step(
                    states2[k],
                    states2[k + 1],
                    rules[k],
                ) by {
                    if k < j {
                        assert(rules[k] == fired@.take(j as int)[k]);
                    }
                }
                assert(rule_steps(start, self@, rules, states2));
                states = states2;
                reveal_with_fuel(Seq::filter, 1);
            }
            let remaining = if sub.remaining > 0 {
                sub.remaining - 1
            } else {
                0
            };
            if remaining > 0 {
                keep.push(Subscription { remaining, ..sub });
            }
            j = j + 1;
            proof {
                assert(keep@ =~= kept0 + fired@.take(j as int).filter(|s: Subscription| s.remaining > 1).map_values(
                    |s: Subscription| Subscription { remaining: (s.remaining - 1) as u32, ..s },
                ));
            }
        }
        assert(fired@.take(j as int) =~= fired@);
        proof {
            Duel::lemma_filter_and(s0, event);
        }
        let ghost survived = keep@;
        let ghost x = self@;
        assert(survived == survivors(s0, event));
        let mut k: usize = 0;
        while k < self.subscriptions.len()
            invariant
                self.wf(),
                Duel::sound(self@),
                Duel::script_frame(old(self)@, self@),
                self@ == x,
                k <= self@.subscriptions.len(),
                keep@ == survived + x.subscriptions.take(k as int),
            decreases self@.subscriptions.len() - k,
        {
            keep.push(self.subscriptions[k]);
            k = k + 1;
            proof {
                assert(keep@ =~= survived + x.subscriptions.take(k as int));
            }
        }
        proof {
            assert(x.subscriptions.take(k as int) =~= x.subscriptions);
        }
        self.subscriptions = keep;
        proof {
            assert(rule_steps(start, x, fired@, states));
            assert(rules_ran(start, x, fired@));
            assert(self@.subscriptions.take(survived.len() as int) =~= survived);
            assert(start == (DuelView { subscriptions: Seq::empty(), ..old(self)@ }));
            assert(fired@ == keyed_rules(old(self)@.subscriptions, event));
            assert(self@ == (DuelView { subscriptions: survivors(s0, event) + x.subscriptions, ..x }));
        }
    }

    /// A copy of a list of card ids.
    fn copy_ids(ids: &Vec<CardId>) -> (r: Vec<CardId>)
        ensures
            r@ == ids@,
    {
        let mut r: Vec<CardId> = Vec::new();
        let mut i: usize = 0;
        while i < ids.len()
            invariant
                i <= ids@.len(),
                r@ == ids@.take(i as int),
            decreases ids@.len() - i,
        {
            r.push(ids[i]);
            i = i + 1;
            assert(r@ =~= ids@.take(i as int));
        }
        assert(ids@.take(i as int) =~= ids@);
        r
    }

    /// Add a link to the chain and clear both players' passes: every new
    /// link (link 1 or a chained response) reopens the response window.
    fn push_chain_link(
        &mut self,
        effect_seq: usize,
        card: CardId,
        activator: usize,
        targets: Vec<CardId>,
        event: EventSnapshot,
    )
        requires
            old(self).wf(),
            Duel::sound(old(self)@),
            effect_seq < old(self)@.effects.len(),
        ensures
            final(self).wf(),
            Duel::sound(final(self)@),
            link_added(old(self)@, final(self)@, ChainLink { effect_seq, card, activator, targets, event }),
    {
        self.chain.push(ChainLink { effect_seq, card, activator, targets, event });
        self.passes = [false, false];
        assert(self@.passes =~= seq![false, false]);
        assert forall|i: int| 0 <= i < self@.chain.len() implies (#[trigger] self@.chain[i]).effect_seq < self@.effects.len() by {
            if i < old(self)@.chain.len() {
                assert(self@.chain[i] == old(self)@.chain[i]);
            }
        }
        proof {
            Duel::lemma_sound_chain(old(self)@, self@);
        }
    }

    /// Activate `card`'s effect in `slot`, as `player`:
    /// - no such effect: `Ok(End)`, nothing changes;
    /// - its `condition` (run with `player` as the activator and `card` as
    ///   the effect's own card) says no: rejected;
    /// - its `target` stage pauses for a selection: with no candidate
    ///   offered, rejected; otherwise, once the costs are paid, the
    ///   activation freezes (`Ok(Awaiting)`) until [`Duel::resume`];
    /// - it needs no selection: once the costs are paid, the link goes on the
    ///   chain (`Ok(End)`).
    /// Costs are paid only on commitment, and only if all are payable;
    /// unpayable costs reject the activation. A rejected activation changes
    /// nothing but the effect context. A committed Spell/Trap card moves to
    /// the Spell & Trap Zone. A script error changes nothing but the context.
    pub fn activate<H: ScriptHost>(&mut self, card: CardId, slot: usize, player: usize, host: &mut H) -> (r: Result<
        DuelStatus,
        ScriptError,
    >)
        requires
            old(self).wf(),
            Duel::sound(old(self)@),
            player < 2,
        ensures
            final(self).wf(),
            Duel::sound(final(self)@),
            activated(old(self)@, final(self)@, card, slot, player, r),
            r != Ok::<DuelStatus, ScriptError>(DuelStatus::Continue),
            quiet(old(self)@, final(self)@),
            Duel::slot_index(old(self)@, card, slot) is None ==> r == Ok::<DuelStatus, ScriptError>(DuelStatus::End)
                && final(self)@ == old(self)@,
    {
        let idx = match self.effect_index(card, slot) {
            Some(i) => i,
            None => {
                return Ok(DuelStatus::End);
            },
        };
        let is_spell = match self.effects[idx].kind {
            EffectKind::Activate => true,
            _ => false,
        };
        // The activator and the effect's own card are set before `condition`:
        // a condition can ask about the activating player or this card.
        self.effect_ctx.activator = player;
        self.effect_ctx.self_card = Some(card);
        let ghost set = self@;
        let ghost n = old(self)@.calls.len() as int;
        proof {
            assert(set == with_ctx(old(self)@, activation_ctx(old(self)@.ctx, card, player)));
            assert(Duel::slot_index(old(self)@, card, slot) is Some);
        }
        let cond = self.check_condition(host, idx);
        let ghost c1 = self@;
        proof {
            assert(c1.calls[n] == c1.calls.last());
            assert(c1.calls.take(n) =~= old(self)@.calls);
            assert(c1 == with_stage(old(self)@, c1));
        }
        match cond {
            Err(e) => {
                return Err(e);
            },
            Ok(false) => {
                return Ok(DuelStatus::End);
            },
            Ok(true) => {},
        }
        let tr = self.run_target(host, idx, true);
        let ghost c2 = self@;
        proof {
            assert(c2.calls[n] == c1.calls[n]);
            assert(c2.calls[n + 1] == c2.calls.last());
            assert(c2.calls.take(n) =~= old(self)@.calls);
            assert(c2 == with_stage(old(self)@, c2));
        }
        let asks = match tr {
            Err(e) => {
                return Err(e);
            },
            Ok(b) => b,
        };
        if asks && self.effect_ctx.candidates.len() == 0 {
            // No legal target: rejected, and no cost is paid.
            return Ok(DuelStatus::End);
        }
        let ghost before_cost = self@;
        let paid_ok = self.pay_cost(idx, player, host);
        let ghost c3 = self@;
        proof {
            assert(c3.calls[n] == c1.calls[n]);
            assert(c3.calls[n + 1] == c2.calls[n + 1]);
            assert(c3.calls[n + 2] == c3.calls.last());
            assert(c3.calls.take(n) =~= old(self)@.calls);
            assert(with_stage(before_cost, c3) == with_stage(old(self)@, c3));
            assert(all_payable(before_cost, declared_costs(c3), player) == all_payable(
                old(self)@,
                declared_costs(c3),
                player,
            ));
        }
        match paid_ok {
            Err(e) => {
                return Err(e);
            },
            Ok(false) => {
                return Ok(DuelStatus::End);
            },
            Ok(true) => {},
        }
        let ghost paid = self@;
        if is_spell {
            proof {
                self@.field.lemma_players_piles(card);
            }
            self.send_to(card, Zone::SpellTrapZone);
            proof {
                crate::field::Field::lemma_send_keeps_players(&paid.field, &self@.field, card, Zone::SpellTrapZone);
                Duel::lemma_field_keeps_small(paid, self@);
            }
        }
        let ghost q = self@;
        proof {
            assert(old(self)@.effects == before_cost.effects);
            assert(activation_paid(with_stage(old(self)@, paid), q, card, idx, player, declared_costs(c3)));
        }
        if asks {
            self.pending = Some((idx, card));
            assert(Duel::sound(self@));
            proof {
                assert(with_stage(old(self)@, self@) == with_stage(old(self)@, paid));
            }
            return Ok(DuelStatus::Awaiting);
        }
        let targets = Duel::copy_ids(&self.effect_ctx.targets);
        // A plain activation is fired by no event.
        self.push_chain_link(idx, card, player, targets, EventSnapshot::default());
        proof {
            assert(with_stage(old(self)@, self@) == with_stage(old(self)@, paid));
        }
        Ok(DuelStatus::End)
    }

    /// Soundness does not look at the event queue, the outbox, the inbox,
    /// the passes or the context.
    proof fn lemma_sound_same(v: DuelView, w: DuelView)
        requires
            Duel::sound(v),
            w == (DuelView {
                events: w.events,
                messages: w.messages,
                responses: w.responses,
                passes: w.passes,
                ctx: w.ctx,
                calls: w.calls,
                ..v
            }),
        ensures
            Duel::sound(w),
    {
        assert(w.stack == v.stack);
        assert(w.chain == v.chain);
        assert(w.cards == v.cards);
    }

    /// Soundness reads only where cards are, the cards, the chain, the registry,
    /// the frozen activation, the turn record, the task stack, the Normal
    /// Summon counters and the responder.
    pub(crate) proof fn lemma_sound_keep(v: DuelView, w: DuelView)
        requires
            Duel::sound(v),
            w.field.players_in_range(),
            w.cards == v.cards,
            w.chain == v.chain,
            w.effects == v.effects,
            w.pending == v.pending,
            w.turn_hist == v.turn_hist,
            w.stack == v.stack,
            w.responder < 2,
        ensures
            Duel::sound(w),
    {
    }

    /// A sound duel is ready for any battle.
    pub(crate) proof fn lemma_sound_battle_ready(v: DuelView, attacker: CardId, target: Option<CardId>)
        requires
            Duel::sound(v),
        ensures
            super::battle::battle_ready(v, attacker, target),
    {
        if let Some(c) = v.card(attacker) {
            let k = probe_key(attacker.ffi());
            assert(v.cards.contains_key(k));
            super::board::lemma_small_fits(c.data.atk, c.modifiers@, true);
            super::board::lemma_small_fits(c.data.def, c.modifiers@, false);
        }
        if let Some(t) = target {
            if let Some(c) = v.card(t) {
                let k = probe_key(t.ffi());
                assert(v.cards.contains_key(k));
                super::board::lemma_small_fits(c.data.atk, c.modifiers@, true);
                super::board::lemma_small_fits(c.data.def, c.modifiers@, false);
            }
        }
    }

    /// Destroying cards by battle keeps a duel sound.
    pub(crate) proof fn lemma_destroyed_all_sound(v: DuelView, w: DuelView, cards: Seq<CardId>)
        requires
            Duel::sound(v),
            super::battle::destroyed_all(v, w, cards),
            w.field.players_in_range(),
            cards.len() <= 2,
        ensures
            Duel::sound(w),
            w == (DuelView { cards: w.cards, field: w.field, events: w.events, ..v }),
    {
        if cards.len() == 1 {
            Duel::lemma_destroy_keeps_small(v, w, cards[0], crate::reason::REASON_BATTLE);
        } else if cards.len() == 2 {
            let mid = choose|mid: DuelView|
                Duel::destroy_step(v, mid, cards[0], crate::reason::REASON_BATTLE) && Duel::destroy_step(
                    mid,
                    w,
                    cards[1],
                    crate::reason::REASON_BATTLE,
                );
            assert forall|k: u64| #[trigger] w.cards.contains_key(k) implies super::board::small_card(w.cards[k]) by {
                assert(mid.cards.contains_key(k));
                assert(v.cards.contains_key(k));
            }
            assert(w.chain == v.chain);
            assert(w.stack == v.stack);
            assert(w.turn_hist == v.turn_hist);
        }
    }

    /// Soundness survives queuing a valid task.
    proof fn lemma_sound_push(v: DuelView, w: DuelView)
        requires
            Duel::sound(v),
            w.stack.len() == v.stack.len() + 1,
            w.stack.take(v.stack.len() as int) == v.stack,
            Duel::unit_ok(w.stack.last(), w.effects.len()),
            w == (DuelView { stack: w.stack, ..v }),
        ensures
            Duel::sound(w),
    {
        assert forall|i: int| 0 <= i < w.stack.len() implies Duel::unit_ok(#[trigger] w.stack[i], w.effects.len()) by {
            if i < v.stack.len() {
                assert(w.stack[i] == w.stack.take(v.stack.len() as int)[i]);
            }
        }
        assert(w.cards == v.cards);
        assert(w.chain == v.chain);
    }

    /// Soundness survives a change of the chain (with valid links), the
    /// passes and the context.
    proof fn lemma_sound_chain(v: DuelView, w: DuelView)
        requires
            Duel::sound(v),
            w == (DuelView { chain: w.chain, passes: w.passes, ctx: w.ctx, calls: w.calls, ..v }),
            forall|i: int| 0 <= i < w.chain.len() ==> (#[trigger] w.chain[i]).effect_seq < w.effects.len(),
        ensures
            Duel::sound(w),
    {
    }

    /// Moving a card never changes a card's stats.
    proof fn lemma_field_keeps_small(v: DuelView, w: DuelView)
        requires
            Duel::sound(v),
            w == (DuelView { field: w.field, ..v }),
            w.field.players_in_range(),
        ensures
            Duel::sound(w),
    {
    }

    /// Resume the activation frozen on a selection: the kept `target` stage
    /// gets the chosen cards (`ctx.targets`) and finishes, then the link goes
    /// on the chain, activated by the context's activator against its
    /// targets. The frozen activation is cleared either way; a script error
    /// adds no link.
    pub fn resume<H: ScriptHost>(&mut self, host: &mut H) -> (r: Result<DuelStatus, ScriptError>)
        requires
            old(self).wf(),
            Duel::sound(old(self)@),
            old(self)@.pending is Some,
        ensures
            final(self).wf(),
            Duel::sound(final(self)@),
            resumed(old(self)@, final(self)@, r),
    {
        let (index, card) = match self.pending {
            Some(p) => p,
            None => {
                return Ok(DuelStatus::End);
            },
        };
        self.pending = None;
        match self.run_resume(host) {
            Err(e) => {
                return Err(e);
            },
            Ok(()) => {},
        }
        let ghost ran = self@;
        let activator = self.effect_ctx.activator;
        let targets = Duel::copy_ids(&self.effect_ctx.targets);
        self.push_chain_link(index, card, activator, targets, EventSnapshot::default());
        proof {
            assert(ran == with_stage(DuelView { pending: None, ..old(self)@ }, self@));
        }
        Ok(DuelStatus::End)
    }

    /// Resolve the chain, last link first: each link is taken off, the
    /// context is set to it (activator, targets, own card, firing event),
    /// its effect's `resolve` stage runs and what it recorded is applied
    /// (a script error applies nothing), and a Spell/Trap activation's card
    /// then goes to the GY. Ends with an empty chain.
    pub fn resolve_chain<H: ScriptHost>(&mut self, host: &mut H)
        requires
            old(self).wf(),
            Duel::sound(old(self)@),
        ensures
            final(self).wf(),
            Duel::sound(final(self)@),
            chain_resolved(old(self)@, final(self)@),
            final(self)@.chain.len() == 0,
            chain_unwound(old(self)@, final(self)@, old(self)@.chain.len()),
            Duel::script_frame(DuelView { chain: final(self)@.chain, ..old(self)@ }, final(self)@),
    {
        let ghost v0 = self@;
        let ghost mut n: nat = 0;
        while self.chain.len() > 0
            invariant
                self.wf(),
                Duel::sound(self@),
                n <= v0.chain.len(),
                self@.chain == v0.chain.take(v0.chain.len() - n),
                chain_unwound(v0, self@, n),
                Duel::script_frame(DuelView { chain: self@.chain, ..v0 }, self@),
            decreases self@.chain.len(),
        {
            let ghost before = self@;
            let link = self.chain.pop().unwrap();
            let ghost p = self@;
            assert(p == popped(before));
            let ChainLink { effect_seq, card, activator, targets, event } = link;
            self.effect_ctx.activator = activator;
            self.effect_ctx.targets = targets;
            self.effect_ctx.self_card = Some(card);
            // The firing event's details are readable while the link resolves.
            self.effect_ctx.event = event;
            let ghost set = self@;
            let _ = self.resolve_effect(effect_seq, host);
            let ghost r = self@;
            proof {
                assert(set == with_ctx(p, link_ctx(before.ctx, before.chain.last())));
                assert(stage_applied(with_ctx(p, link_ctx(before.ctx, before.chain.last())), r, effect_seq));
            }
            let is_spell = match self.effects[effect_seq].kind {
                EffectKind::Activate => true,
                _ => false,
            };
            if is_spell {
                proof {
                    self@.field.lemma_players_piles(card);
                }
                self.send_to(card, Zone::GY);
                proof {
                    crate::field::Field::lemma_send_keeps_players(&r.field, &self@.field, card, Zone::GY);
                    Duel::lemma_field_keeps_small(r, self@);
                }
            }
            proof {
                assert(link_resolved(before, self@));
                n = n + 1;
                assert(self@.chain =~= v0.chain.take(v0.chain.len() - n));
            }
        }
        assert(n == v0.chain.len());
    }

    /// Drain the event queue: for each event (oldest first) whose card is in
    /// the arena, each trigger of that card keyed to it whose `condition`
    /// passes (run with the card's controller as the activator) fires: an
    /// optional one queues its yes/no prompt; a mandatory one is returned,
    /// in firing order.
    fn collect_fired<H: ScriptHost>(&mut self, host: &mut H) -> (fired: Vec<(usize, CardId, usize, EventSnapshot)>)
        requires
            old(self).wf(),
            Duel::sound(old(self)@),
        ensures
            final(self).wf(),
            Duel::sound(final(self)@),
            final(self)@.events.len() == 0,
            forall|i: int| 0 <= i < fired@.len() ==> {
                let f = #[trigger] fired@[i];
                fired_by(old(self)@, f.0, f.1, f.2, f.3) && !old(self)@.effects[f.0 as int].optional
            },
            final(self)@.stack.take(old(self)@.stack.len() as int) == old(self)@.stack,
            old(self)@.stack.len() <= final(self)@.stack.len(),
            forall|i: int|
                old(self)@.stack.len() <= i < final(self)@.stack.len() ==> optional_prompt(
                    old(self)@,
                    #[trigger] final(self)@.stack[i],
                ),
            final(self)@ == (DuelView {
                events: final(self)@.events,
                stack: final(self)@.stack,
                ctx: final(self)@.ctx,
                calls: final(self)@.calls,
                ..old(self)@
            }),
            exists|keys: Seq<(int, int)>|
                #![trigger collected_upto(old(self)@, final(self)@, keys, fired@, final(self)@.stack.subrange(old(self)@.stack.len() as int, final(self)@.stack.len() as int), (old(self)@.events.len() as int, 0))]
                collected_upto(
                    old(self)@,
                    final(self)@,
                    keys,
                    fired@,
                    final(self)@.stack.subrange(old(self)@.stack.len() as int, final(self)@.stack.len() as int),
                    (old(self)@.events.len() as int, 0),
                ),
    {
        let ghost v0 = self@;
        let mut fired: Vec<(usize, CardId, usize, EventSnapshot)> = Vec::new();
        let ghost mut consumed: int = 0;
        let ghost mut keys: Seq<(int, int)> = Seq::empty();
        proof {
            lemma_collect_start(v0);
            assert(self@.stack.subrange(v0.stack.len() as int, self@.stack.len() as int) =~= Seq::<Processor>::empty());
        }
        while self.events.len() > 0
            invariant
                collected_upto(
                    v0,
                    self@,
                    keys,
                    fired@,
                    self@.stack.subrange(v0.stack.len() as int, self@.stack.len() as int),
                    (consumed, 0),
                ),
                self.wf(),
                Duel::sound(self@),
                0 <= consumed <= v0.events.len(),
                self@.events == v0.events.subrange(consumed, v0.events.len() as int),
                forall|i: int| 0 <= i < fired@.len() ==> {
                    let f = #[trigger] fired@[i];
                    fired_by(v0, f.0, f.1, f.2, f.3) && !v0.effects[f.0 as int].optional
                },
                self@.stack.take(v0.stack.len() as int) == v0.stack,
                v0.stack.len() <= self@.stack.len(),
                forall|i: int| v0.stack.len() <= i < self@.stack.len() ==> optional_prompt(v0, #[trigger] self@.stack[i]),
                self@ == (DuelView { events: self@.events, stack: self@.stack, ctx: self@.ctx, calls: self@.calls, ..v0 }),
            decreases self@.events.len(),
        {
            let ghost before = self@;
            let event = self.events.pop_front().unwrap();
            let ghost k = consumed;
            let ghost ev = v0.events[k];
            proof {
                assert(before.events[0] == v0.events[k]);
                assert(event == ev);
                consumed = consumed + 1;
                assert(self@.events =~= v0.events.subrange(consumed, v0.events.len() as int));
                Duel::lemma_sound_same(before, self@);
            }
            let code = match self.get_card(event.card) {
                Some(c) => Some(c.code),
                None => None,
            };
            let player = self.controller_of(event.card);
            proof {
                self@.field.lemma_players_piles(event.card);
            }
            let DuelEvent { code: ev_code, card: ev_card, reason: _, details } = event;
            let snapshot = EventSnapshot { code: ev_code, details };
            assert(code is Some ==> (v0.card(ev_card) matches Some(c) && c.code == code->0));
            if let Some(card_code) = code {
                let mut i: usize = 0;
                while i < self.effects.len()
                    invariant
                        collected_upto(
                            v0,
                            self@,
                            keys,
                            fired@,
                            self@.stack.subrange(v0.stack.len() as int, self@.stack.len() as int),
                            (k, i as int),
                        ),
                        self.wf(),
                        Duel::sound(self@),
                        i <= self@.effects.len(),
                        player < 2,
                        0 <= k < v0.events.len(),
                        ev == v0.events[k],
                        ev.card == ev_card,
                        ev.code == ev_code,
                        0 <= consumed <= v0.events.len(),
                        self@.events == v0.events.subrange(consumed, v0.events.len() as int),
                        snapshot.records(ev),
                        player == super::battle::controller(v0, ev_card),
                        v0.card(ev_card) matches Some(c) && c.code == card_code,
                        forall|i: int| 0 <= i < fired@.len() ==> {
                            let f = #[trigger] fired@[i];
                            fired_by(v0, f.0, f.1, f.2, f.3) && !v0.effects[f.0 as int].optional
                        },
                        self@.stack.take(v0.stack.len() as int) == v0.stack,
                        v0.stack.len() <= self@.stack.len(),
                        forall|i: int| v0.stack.len() <= i < self@.stack.len() ==> optional_prompt(v0, #[trigger] self@.stack[i]),
                        self@ == (DuelView { events: self@.events, stack: self@.stack, ctx: self@.ctx, calls: self@.calls, ..v0 }),
                    decreases self@.effects.len() - i,
                {
                    let e = self.effects[i];
                    let keyed = match e.kind {
                        EffectKind::Trigger => e.code == card_code && e.event == ev_code,
                        _ => false,
                    };
                    if keyed {
                        let ghost before_cond = self@;
                        let ghost fired_b = fired@;
                        let ghost prompts_b = self@.stack.subrange(v0.stack.len() as int, self@.stack.len() as int);
                        self.effect_ctx.activator = player;
                        let pass = match self.check_condition(host, i) {
                            Ok(b) => b,
                            Err(_) => false,
                        };
                        proof {
                            Duel::lemma_sound_same(before_cond, self@);
                        }
                        let ghost asked = self@;
                        let copy = snapshot.duplicate();
                        if pass {
                            proof {
                                assert(triggered_by(v0, i as int, v0.events[k]));
                                assert(fired_by(v0, i, ev_card, player, copy));
                            }
                            if e.optional {
                                let ghost before = self@.stack;
                                let ghost before_push = self@;
                                self.processor_stack.push(
                                    Processor::OptionalTrigger { step: 0, effect: i, card: ev_card, player, event: copy },
                                );
                                proof {
                                    assert(self@.stack.take(v0.stack.len() as int) =~= before.take(v0.stack.len() as int));
                                    assert(self@.stack.take(before.len() as int) =~= before);
                                    Duel::lemma_sound_push(before_push, self@);
                                    assert forall|j: int| v0.stack.len() <= j < self@.stack.len() implies optional_prompt(
                                        v0,
                                        #[trigger] self@.stack[j],
                                    ) by {
                                        if j < before.len() {
                                            assert(self@.stack[j] == before[j]);
                                        }
                                    }
                                }
                            } else {
                                fired.push((i, ev_card, player, copy));
                            }
                        }
                        proof {
                            let prompts_a = self@.stack.subrange(v0.stack.len() as int, self@.stack.len() as int);
                            let u = Processor::OptionalTrigger { step: 0, effect: i, card: ev_card, player, event: copy };
                            assert(self@.calls == asked.calls);
                            assert(asked.calls == before_cond.calls.push(asked.calls.last()));
                            assert(self@.effects == v0.effects);
                            if pass && e.optional {
                                assert(prompts_a =~= prompts_b.push(u));
                            } else {
                                assert(prompts_a =~= prompts_b);
                            }
                            assert(triggered_by(v0, i as int, v0.events[k]));
                            lemma_collect_asked(
                                v0,
                                before_cond,
                                self@,
                                keys,
                                fired_b,
                                prompts_b,
                                fired@,
                                prompts_a,
                                k,
                                i as int,
                                (i, ev_card, player, copy),
                                u,
                            );
                            keys = keys.push((k, i as int));
                        }
                    } else {
                        proof {
                            lemma_collect_skip(
                                v0,
                                self@,
                                keys,
                                fired@,
                                self@.stack.subrange(v0.stack.len() as int, self@.stack.len() as int),
                                k,
                                i as int,
                            );
                        }
                    }
                    i = i + 1;
                }
                proof {
                    lemma_collect_next(
                        v0,
                        self@,
                        keys,
                        fired@,
                        self@.stack.subrange(v0.stack.len() as int, self@.stack.len() as int),
                        k,
                        i as int,
                    );
                }
            } else {
                proof {
                    lemma_collect_next(
                        v0,
                        self@,
                        keys,
                        fired@,
                        self@.stack.subrange(v0.stack.len() as int, self@.stack.len() as int),
                        k,
                        0,
                    );
                }
            }
        }
        proof {
            assert(consumed == v0.events.len());
        }
        fired
    }

    /// Order fired triggers for the chain by SEGOC (see [`segoc`]): a stable
    /// partition, the turn player's first.
    fn segoc_order(fired: Vec<(usize, CardId, usize, EventSnapshot)>, turn_player: usize) -> (r: Vec<
        (usize, CardId, usize, EventSnapshot),
    >)
        ensures
            r@ == segoc(fired@, turn_player),
    {
        let ghost orig = fired@;
        let mut rest = fired;
        let mut mine: Vec<(usize, CardId, usize, EventSnapshot)> = Vec::new();
        let mut theirs: Vec<(usize, CardId, usize, EventSnapshot)> = Vec::new();
        let ghost mut k: int = 0;
        while rest.len() > 0
            invariant
                0 <= k <= orig.len(),
                rest@ == orig.subrange(k, orig.len() as int),
                mine@ == orig.take(k).filter(fired_for(turn_player)),
                theirs@ == orig.take(k).filter(fired_against(turn_player)),
            decreases rest@.len(),
        {
            let f = rest.remove(0);
            proof {
                assert(orig.take(k + 1).drop_last() =~= orig.take(k));
                assert(orig.take(k + 1).last() == f);
                reveal_with_fuel(Seq::filter, 1);
                k = k + 1;
                assert(rest@ =~= orig.subrange(k, orig.len() as int));
            }
            if f.2 == turn_player {
                mine.push(f);
            } else {
                theirs.push(f);
            }
        }
        assert(k == orig.len());
        assert(orig.take(k) =~= orig);
        mine.append(&mut theirs);
        mine
    }

    /// Drain the event queue and put the fired triggers on the chain: every
    /// fired mandatory trigger becomes a chain link (no targets), ordered by
    /// SEGOC: the turn player's first, each player's in firing order; an
    /// optional trigger queues its yes/no prompt instead. With any link
    /// built, the chain then resolves through the usual window: a response
    /// window for the turn player's opponent is queued on top of a chain
    /// resolution.
    pub fn process_events<H: ScriptHost>(&mut self, host: &mut H)
        requires
            old(self).wf(),
            Duel::sound(old(self)@),
        ensures
            final(self).wf(),
            Duel::sound(final(self)@),
            events_done(old(self)@, final(self)@),
            final(self)@.events.len() == 0,
            exists|fired: Seq<(usize, CardId, usize, EventSnapshot)>, prompts: Seq<Processor>, links: Seq<ChainLink>|
                #![trigger events_processed(old(self)@, final(self)@, fired, prompts, links)]
                events_processed(old(self)@, final(self)@, fired, prompts, links),
            final(self)@ == (DuelView {
                events: final(self)@.events,
                chain: final(self)@.chain,
                stack: final(self)@.stack,
                passes: final(self)@.passes,
                ctx: final(self)@.ctx,
                calls: final(self)@.calls,
                ..old(self)@
            }),
    {
        let tp: usize = match self.turn_hist.last() {
            Some(p) => *p,
            None => 0,
        };
        let fired = self.collect_fired(host);
        let ghost fired0 = fired@;
        let ghost v1 = self@;
        let ghost prompts = v1.stack.subrange(old(self)@.stack.len() as int, v1.stack.len() as int);
        let mut ordered = Duel::segoc_order(fired, tp);
        let ghost ord = ordered@;
        proof {
            assert(tp == turn_player(old(self)@));
            let keep_mine = fired_for(tp);
            let keep_theirs = fired_against(tp);
            assert forall|i: int| 0 <= i < ord.len() implies (#[trigger] ord[i]).0 < v1.effects.len() by {
                let a = fired0.filter(keep_mine);
                let b = fired0.filter(keep_theirs);
                let x = ord[i];
                if i < a.len() {
                    assert(a[i] == x);
                    assert(a.contains(x));
                    fired0.lemma_filter_contains_rev(keep_mine, x);
                } else {
                    assert(b[i - a.len()] == x);
                    assert(b.contains(x));
                    fired0.lemma_filter_contains_rev(keep_theirs, x);
                }
                let j = choose|j: int| 0 <= j < fired0.len() && fired0[j] == x;
                assert(fired_by(old(self)@, fired0[j].0, fired0[j].1, fired0[j].2, fired0[j].3));
            }
        }
        let any = ordered.len() > 0;
        let ghost mut k: int = 0;
        while ordered.len() > 0
            invariant
                self.wf(),
                Duel::sound(self@),
                0 <= k <= ord.len(),
                ordered@ == ord.subrange(k, ord.len() as int),
                self@.chain.len() == v1.chain.len() + k,
                self@.chain.take(v1.chain.len() as int) == v1.chain,
                forall|i: int| 0 <= i < k ==> link_of(ord[i], #[trigger] self@.chain[v1.chain.len() + i]),
                forall|i: int| 0 <= i < ord.len() ==> (#[trigger] ord[i]).0 < v1.effects.len(),
                k > 0 ==> self@.passes == seq![false, false],
                k == 0 ==> self@ == v1,
                self@ == (DuelView { chain: self@.chain, passes: self@.passes, ..v1 }),
            decreases ordered@.len(),
        {
            let (idx, card, player, snapshot) = ordered.remove(0);
            let ghost before = self@;
            proof {
                assert(ord[k] == (idx, card, player, snapshot));
            }
            self.push_chain_link(idx, card, player, Vec::new(), snapshot);
            proof {
                assert forall|i: int| 0 <= i < k + 1 implies link_of(ord[i], #[trigger] self@.chain[v1.chain.len() + i]) by {
                    if i < k {
                        assert(self@.chain[v1.chain.len() + i] == before.chain[v1.chain.len() + i]);
                    }
                }
                assert(self@.chain.take(v1.chain.len() as int) =~= before.chain.take(v1.chain.len() as int));
                k = k + 1;
                assert(ordered@ =~= ord.subrange(k, ord.len() as int));
            }
        }
        let ghost s1 = self@.stack;
        assert(s1 == v1.stack);
        if any {
            self.processor_stack.push(Processor::ResolveChain { step: 0 });
            self.processor_stack.push(Processor::ChainResponse { step: 0, player: 1 - tp });
            assert(self@.stack =~= s1 + seq![
                Processor::ResolveChain { step: 0 },
                Processor::ChainResponse { step: 0, player: (1 - tp) as usize },
            ]);
        } else {
            assert(self@.stack =~= s1 + Seq::<Processor>::empty());
        }
        proof {
            let links = self@.chain.subrange(v1.chain.len() as int, self@.chain.len() as int);
            assert(self@.chain =~= v1.chain + links);
            assert(v1.stack =~= old(self)@.stack + prompts);
            assert forall|i: int| 0 <= i < links.len() implies link_of(ord[i], #[trigger] links[i]) by {
                assert(links[i] == self@.chain[v1.chain.len() + i]);
            }
            assert forall|i: int| 0 <= i < prompts.len() implies optional_prompt(old(self)@, #[trigger] prompts[i]) by {
                assert(prompts[i] == v1.stack[old(self)@.stack.len() + i]);
            }
            let keys = choose|keys: Seq<(int, int)>|
                #![trigger collected_upto(old(self)@, v1, keys, fired0, prompts, (old(self)@.events.len() as int, 0))]
                collected_upto(old(self)@, v1, keys, fired0, prompts, (old(self)@.events.len() as int, 0));
            assert(self@.calls == v1.calls);
            assert(collected_upto(old(self)@, self@, keys, fired0, prompts, (old(self)@.events.len() as int, 0)));
            assert(events_processed(old(self)@, self@, fired0, prompts, links));
        }
    }

    /// Filtering by `event` then by "firings left" is filtering by both.
    proof fn lemma_filter_and(s: Seq<Subscription>, event: u32)
        ensures
            s.filter(|x: Subscription| x.event == event).filter(|x: Subscription| x.remaining > 1)
                == s.filter(|x: Subscription| x.event == event && x.remaining > 1),
        decreases s.len(),
    {
        reveal_with_fuel(Seq::filter, 1);
        if s.len() > 0 {
            Duel::lemma_filter_and(s.drop_last(), event);
            let f = s.filter(|x: Subscription| x.event == event);
            if s.last().event == event {
                assert(f.drop_last() =~= s.drop_last().filter(|x: Subscription| x.event == event));
            }
        }
        assert(s.filter(|x: Subscription| x.event == event).filter(|x: Subscription| x.remaining > 1)
            =~= s.filter(|x: Subscription| x.event == event && x.remaining > 1));
    }
}

/// A life-point cost is payable by a player exactly when that player's own
/// life points cover it; the other player's life points do not matter.
pub proof fn lemma_lp_cost_payable(v: DuelView, n: u32, player: usize, other_lp: u32)
    requires
        player < 2,
        v.lps.len() == 2,
    ensures
        payable(v, CostType::LifePoints(n), player) <==> v.lps[player as int] >= n,
        payable(v, CostType::LifePoints(n), player) == payable(
            DuelView { lps: v.lps.update(1 - player, other_lp), ..v },
            CostType::LifePoints(n),
            player,
        ),
{
    assert(v.lps.update(1 - player, other_lp)[player as int] == v.lps[player as int]);
}

/// A discard is payable exactly while the card sits in a hand, whoever pays.
pub proof fn lemma_discard_payable(v: DuelView, card: CardId, player: usize, other: usize)
    ensures
        payable(v, CostType::Discard(card), player) <==> (v.location(card) matches Some(l) && l.1 == Zone::Hand),
        payable(v, CostType::Discard(card), player) == payable(v, CostType::Discard(card), other),
{
}

/// Paying a payable life-point cost takes exactly that much from the payer
/// and nothing from the other player.
pub proof fn lemma_lp_cost_paid(v: DuelView, w: DuelView, n: u32, player: usize)
    requires
        player < 2,
        v.lps.len() == 2,
        payable(v, CostType::LifePoints(n), player),
        cost_step(v, w, CostType::LifePoints(n), player),
    ensures
        w.lps[player as int] == v.lps[player as int] - n,
        w.lps[1 - player] == v.lps[1 - player],
{
}

/// The response gate: a card in hand may respond to a top link of speed
/// `top` exactly when its activation's speed is at least 2 and at least
/// `top`. So a card can always answer a link of its own speed (if that is at
/// least 2), and a card fast enough for a link is fast enough for any slower
/// one.
pub proof fn lemma_response_gate(v: DuelView, card: CardId, top: u8, lower: u8)
    requires
        v.card(card) is Some,
        lower <= top,
    ensures
        ({
            let c = v.card(card)->0;
            let s = speed(EffectKind::Activate, c.data.card_type, c.data.spell_type, c.data.trap_type);
            &&& fast_enough(v, card, top) <==> (s >= 2 && s >= top)
            &&& s >= 2 ==> fast_enough(v, card, s)
            &&& fast_enough(v, card, top) ==> fast_enough(v, card, lower)
        }),
{
}

/// A player is offered, in a response window on a chain, only effects of
/// cards in that player's own hand that are fast enough for the top link.
pub proof fn lemma_chain_offers_own_hand(v: DuelView, player: usize, top: u8)
    ensures
        forall|o: (CardId, usize)| #[trigger] chain_offers(v, player, top).contains(o) ==> v.field.hand(
            player as int,
        ).contains(o.0) && fast_enough(v, o.0, top),
{
    let pred = |c: CardId| fast_enough(v, c, top);
    let hand = v.field.hand(player as int);
    let fast = hand.filter(pred);
    lemma_offers_cards(v, fast, EffectKind::Activate, None);
    assert forall|o: (CardId, usize)| #[trigger] chain_offers(v, player, top).contains(o) implies hand.contains(o.0)
        && fast_enough(v, o.0, top) by {
        assert(fast.contains(o.0));
        hand.lemma_filter_contains_rev(pred, o.0);
        let k = choose|k: int| 0 <= k < fast.len() && fast[k] == o.0;
        hand.lemma_filter_pred(pred, k);
    }
}

} // verus!
