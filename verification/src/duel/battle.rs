//! The Battle Phase: declaring attacks and resolving battle.
//!
//! An attack is declared as `attacker -> target`, where a `None` target means
//! a direct attack (the opponent controls no monsters). Resolving it turns the
//! declaration into life-point damage and destruction (through
//! `Duel::destroy`, so the reason is recorded for triggers).

use vstd::prelude::*;

use crate::constants::{PLAYER_0, PLAYER_1};
use crate::event::EVENT_PRE_DAMAGE_CALCULATION;
use crate::script::ScriptHost;
use crate::field::Field;
use crate::ids::CardId;
use crate::processor::Processor;
use crate::reason::REASON_BATTLE;
use crate::zone::Zone;

use super::board::{after_lp_loss, stat_value, stats_fit};
use super::scripting::{turn_player, with_ctx};
use super::{Duel, DuelView};

verus! {

/// A card's folded ATK, or 0 if it is not in the arena.
pub open spec fn atk_or_zero(v: DuelView, c: CardId) -> i32 {
    match v.card(c) {
        Some(card) => stat_value(card.data.atk, card.modifiers@, true),
        None => 0,
    }
}

/// A card's folded DEF, or 0 if it is not in the arena.
pub open spec fn def_or_zero(v: DuelView, c: CardId) -> i32 {
    match v.card(c) {
        Some(card) => stat_value(card.data.def, card.modifiers@, false),
        None => 0,
    }
}

/// Who controls `c`: the player whose zone it sits in, or 0 if unplaced.
pub open spec fn controller(v: DuelView, c: CardId) -> usize {
    match v.location(c) {
        Some(l) => l.0,
        None => 0,
    }
}

/// Whether `c` is a monster in an attack position.
pub open spec fn in_attack(v: DuelView, c: CardId) -> bool {
    Duel::position(v, c) matches Some(p) && p.spec_attack()
}

/// The battle damage `[player0, player1]` from `attacker` attacking
/// `target`:
/// - direct (`None`): the attacker's ATK to the attacker's opponent;
/// - against an attack-position monster: the difference of the two ATKs to
///   the controller of the weaker (nothing on a tie);
/// - against a defense-position monster: if the DEF is higher, the
///   difference to the attacker's controller; otherwise nothing.
pub open spec fn battle_damage(v: DuelView, attacker: CardId, target: Option<CardId>) -> Seq<u32> {
    let a = atk_or_zero(v, attacker);
    let ap = controller(v, attacker);
    let none = seq![0u32, 0u32];
    match target {
        None => none.update(((ap + 1) % 2) as int, a as u32),
        Some(t) => {
            let tp = controller(v, t);
            if in_attack(v, t) {
                let d = atk_or_zero(v, t);
                if a > d {
                    none.update(tp as int, (a - d) as u32)
                } else if a < d {
                    none.update(ap as int, (d - a) as u32)
                } else {
                    none
                }
            } else {
                let d = def_or_zero(v, t);
                if a < d {
                    none.update(ap as int, (d - a) as u32)
                } else {
                    none
                }
            }
        },
    }
}

/// The monsters a battle destroys, in the order they are destroyed: the
/// weaker of two attack-position monsters (both on a tie, target first); a
/// defense-position target whose DEF the ATK exceeds; nothing for a direct
/// attack.
pub open spec fn battle_losers(v: DuelView, attacker: CardId, target: Option<CardId>) -> Seq<CardId> {
    match target {
        None => Seq::empty(),
        Some(t) => {
            let a = atk_or_zero(v, attacker);
            if in_attack(v, t) {
                let d = atk_or_zero(v, t);
                if a > d {
                    seq![t]
                } else if a < d {
                    seq![attacker]
                } else {
                    seq![t, attacker]
                }
            } else if a > def_or_zero(v, t) {
                seq![t]
            } else {
                Seq::empty()
            }
        },
    }
}

/// `w` is `v` after destroying each of `cards` by battle, in order.
pub open spec fn destroyed_all(v: DuelView, w: DuelView, cards: Seq<CardId>) -> bool {
    if cards.len() == 0 {
        w == v
    } else if cards.len() == 1 {
        Duel::destroy_step(v, w, cards[0], REASON_BATTLE)
    } else {
        exists|mid: DuelView|
            Duel::destroy_step(v, mid, cards[0], REASON_BATTLE) && Duel::destroy_step(
                mid,
                w,
                cards[1],
                REASON_BATTLE,
            )
    }
}

/// What a battle between `attacker` and `target` needs to be computed
/// without panicking: every located card sits in player 0's or player 1's
/// zone, and both monsters' ATK/DEF folds stay in range.
pub open spec fn battle_ready(v: DuelView, attacker: CardId, target: Option<CardId>) -> bool {
    &&& v.field.players_in_range()
    &&& (v.card(attacker) matches Some(c) ==> stats_fit(c))
    &&& (target matches Some(t) ==> (v.card(t) matches Some(c) ==> stats_fit(c)))
}

impl Duel {
    /// Queue a stand-alone Battle-Phase menu for player 0.
    pub fn battle_command(&mut self)
        requires
            old(self).wf(),
        ensures
            final(self).wf(),
            final(self)@ == (DuelView {
                stack: old(self)@.stack.push(Processor::BattleCommand { step: 0, player: 0 }),
                ..old(self)@
            }),
    {
        self.battle_command_for(PLAYER_0);
    }

    /// Queue a stand-alone Battle-Phase menu for `player`.
    pub fn battle_command_for(&mut self, player: usize)
        requires
            old(self).wf(),
        ensures
            final(self).wf(),
            final(self)@ == (DuelView {
                stack: old(self)@.stack.push(Processor::BattleCommand { step: 0, player }),
                ..old(self)@
            }),
    {
        self.processor_stack.push(Processor::BattleCommand { step: 0, player });
    }

    /// Whether `c` may attack: face-up in attack position, and it has not
    /// attacked yet this turn.
    pub open spec fn can_attack(v: DuelView, c: CardId) -> bool {
        &&& Duel::position(v, c) matches Some(p) && p.spec_attack() && p.spec_face_up()
        &&& !v.attacked.contains(c.key)
    }

    /// The preview is what a battle deals: resolving it from the same state
    /// takes exactly the previewed damage off each player who has that
    /// many life points; at most one player takes damage; and a tie of ATK
    /// with ATK, or ATK at least the DEF of a defense-position target, deals
    /// none.
    pub proof fn lemma_preview_is_dealt(v: DuelView, w: DuelView, attacker: CardId, target: Option<CardId>)
        requires
            v.lps.len() == 2,
            v.field.players_in_range(),
            ({
                let dmg = battle_damage(v, attacker, target);
                let mid = after_lp_loss(after_lp_loss(v, 0, dmg[0]), 1, dmg[1]);
                destroyed_all(mid, w, battle_losers(v, attacker, target))
            }),
        ensures
            forall|p: int|
                0 <= p < 2 && battle_damage(v, attacker, target)[p] <= v.lps[p] ==> w.lps[p] == v.lps[p]
                    - battle_damage(v, attacker, target)[p],
            battle_damage(v, attacker, target)[0] == 0 || battle_damage(v, attacker, target)[1] == 0,
            target matches Some(t) && in_attack(v, t) && atk_or_zero(v, attacker) == atk_or_zero(v, t)
                ==> battle_damage(v, attacker, target) == seq![0u32, 0u32],
            target matches Some(t) && !in_attack(v, t) && atk_or_zero(v, attacker) >= def_or_zero(v, t)
                ==> battle_damage(v, attacker, target) == seq![0u32, 0u32],
    {
        let dmg = battle_damage(v, attacker, target);
        let mid = after_lp_loss(after_lp_loss(v, 0, dmg[0]), 1, dmg[1]);
        let losers = battle_losers(v, attacker, target);
        if losers.len() > 1 {
            let m2 = choose|m2: DuelView|
                Duel::destroy_step(mid, m2, losers[0], REASON_BATTLE) && Duel::destroy_step(
                    m2,
                    w,
                    losers[1],
                    REASON_BATTLE,
                );
        }
        assert(w.lps == mid.lps);
        assert(controller(v, attacker) < 2) by {
            if v.location(attacker) is Some {
                assert(v.field.locs().contains_key(attacker.key));
            }
        }
        if let Some(t) = target {
            assert(controller(v, t) < 2) by {
                if v.location(t) is Some {
                    assert(v.field.locs().contains_key(t.key));
                }
            }
        }
    }

    /// A new turn lets every monster attack again: right after a turn
    /// opens, a monster can attack exactly when it is face-up in attack
    /// position in a Monster Zone.
    pub proof fn lemma_turn_resets_attacks(v: DuelView, w: DuelView, c: CardId)
        requires
            w.attacked == Set::<u64>::empty(),
            w.cards == v.cards,
            w.field == v.field,
        ensures
            Duel::can_attack(w, c) <==> (Duel::position(v, c) matches Some(p) && p.spec_attack()
                && p.spec_face_up()),
    {
    }

    /// A monster cannot attack twice in one turn: once its attack is
    /// declared, it is no longer among the monsters that can attack.
    pub proof fn lemma_attack_once(v: DuelView, w: DuelView, attacker: CardId, target: Option<CardId>)
        requires
            w == (DuelView {
                last_attack: Some((attacker, target)),
                attacked: v.attacked.insert(attacker.key),
                ..v
            }),
        ensures
            !Duel::can_attack(w, attacker),
            forall|p: usize| !(#[trigger] w.field.cards_at(p, Zone::MonsterZone)).filter(|c: CardId| Duel::can_attack(w, c)).contains(attacker),
    {
        assert forall|p: usize| !(#[trigger] w.field.cards_at(p, Zone::MonsterZone)).filter(|c: CardId| Duel::can_attack(w, c)).contains(attacker) by {
            let s = w.field.cards_at(p, Zone::MonsterZone);
            let ready = s.filter(|c: CardId| Duel::can_attack(w, c));
            if ready.contains(attacker) {
                let i = choose|i: int| 0 <= i < ready.len() && #[trigger] ready[i] == attacker;
                s.lemma_filter_pred(|c: CardId| Duel::can_attack(w, c), i);
            }
        }
    }

    /// The monsters `player` can attack with: the ones they control that are
    /// face-up in attack position and have not attacked yet this turn, in id
    /// order.
    pub fn attackers(&self, player: usize) -> (r: Vec<CardId>)
        requires
            self.wf(),
        ensures
            r@ == self@.field.cards_at(player, Zone::MonsterZone).filter(
                |c: CardId| Duel::can_attack(self@, c),
            ),
            forall|i: int| 0 <= i < r@.len() ==> !self@.attacked.contains(#[trigger] r@[i].key),
    {
        let zone = self.monster_zone(player);
        let mut r: Vec<CardId> = Vec::new();
        let mut i: usize = 0;
        while i < zone.len()
            invariant
                self.wf(),
                i <= zone@.len(),
                r@ == zone@.take(i as int).filter(|c: CardId| Duel::can_attack(self@, c)),
            decreases zone@.len() - i,
        {
            proof {
                assert(zone@.take(i as int + 1).drop_last() =~= zone@.take(i as int));
                reveal_with_fuel(Seq::filter, 1);
            }
            let c = zone[i];
            let ready = match self.position_of(c) {
                Some(p) => p.is_attack() && p.is_face_up(),
                None => false,
            };
            if ready && !self.attacked_this_turn.contains(&c.key) {
                r.push(c);
            }
            i = i + 1;
        }
        assert(zone@.take(i as int) =~= zone@);
        proof {
            assert forall|i: int| 0 <= i < r@.len() implies !self@.attacked.contains(
                #[trigger] r@[i].key,
            ) by {
                zone@.filter_lemma(|c: CardId| Duel::can_attack(self@, c));
            }
        }
        r
    }

    /// The monsters an attack by `player` may target: everything the opponent
    /// controls, in id order. Empty means the attack can only be direct.
    pub fn attack_targets(&self, player: usize) -> (r: Vec<CardId>)
        requires
            self.wf(),
            player < usize::MAX,
        ensures
            r@ == self@.field.cards_at(((player + 1) % 2) as usize, Zone::MonsterZone),
    {
        let opponent = (player + 1) % 2;
        self.monster_zone(opponent)
    }

    /// Record a declared attack: `attacker` against `target` (`None` for
    /// direct). The attacker has now used its attack for this turn.
    pub fn declare_attack(&mut self, attacker: CardId, target: Option<CardId>)
        requires
            old(self).wf(),
        ensures
            final(self).wf(),
            final(self)@ == (DuelView {
                last_attack: Some((attacker, target)),
                attacked: old(self)@.attacked.insert(attacker.key),
                ..old(self)@
            }),
    {
        self.last_attack = Some((attacker, target));
        self.attacked_this_turn.insert(attacker.key);
    }

    /// The most recently declared attack, as `(attacker, target)`; a `None`
    /// target means a direct attack.
    pub fn last_attack(&self) -> (r: Option<(CardId, Option<CardId>)>)
        ensures
            r == self@.last_attack,
    {
        self.last_attack
    }

    /// The battle damage each player would take from resolving `attacker`
    /// against `target`, `[player0, player1]`, computed without applying
    /// anything (see [`battle_damage`]).
    pub fn battle_damage_preview(&self, attacker: CardId, target: Option<CardId>) -> (dmg: [u32; 2])
        requires
            self.wf(),
            battle_ready(self@, attacker, target),
        ensures
            dmg@ == battle_damage(self@, attacker, target),
    {
        let mut dmg = [0u32; 2];
        let attacker_atk = match self.atk_of(attacker) {
            Some(a) => a,
            None => 0,
        };
        let attacker_player = self.controller_of(attacker);
        let target = match target {
            Some(t) => t,
            None => {
                let defender = (attacker_player + 1) % 2;
                dmg[defender] = attacker_atk as u32;
                assert(dmg@ =~= battle_damage(self@, attacker, None));
                return dmg;
            },
        };
        let target_player = self.controller_of(target);
        let target_in_attack = match self.position_of(target) {
            Some(p) => p.is_attack(),
            None => false,
        };
        if target_in_attack {
            let defender_atk = match self.atk_of(target) {
                Some(a) => a,
                None => 0,
            };
            if attacker_atk > defender_atk {
                dmg[target_player] = (attacker_atk - defender_atk) as u32;
            } else if attacker_atk < defender_atk {
                dmg[attacker_player] = (defender_atk - attacker_atk) as u32;
            }
        } else {
            let def = match self.def_of(target) {
                Some(d) => d,
                None => 0,
            };
            if attacker_atk < def {
                dmg[attacker_player] = (def - attacker_atk) as u32;
            }
        }
        assert(dmg@ =~= battle_damage(self@, attacker, Some(target)));
        dmg
    }

    /// Resolve a declared attack into life-point damage and destruction:
    /// first the damage of [`battle_damage`] is dealt (player 0's, then
    /// player 1's), then the losers of [`battle_losers`] are destroyed by
    /// battle. Integer-only; the controller of a monster takes its battle
    /// damage.
    pub fn resolve_battle(&mut self, attacker: CardId, target: Option<CardId>)
        requires
            old(self).wf(),
            battle_ready(old(self)@, attacker, target),
        ensures
            final(self).wf(),
            ({
                let dmg = battle_damage(old(self)@, attacker, target);
                let mid = after_lp_loss(after_lp_loss(old(self)@, 0, dmg[0]), 1, dmg[1]);
                destroyed_all(mid, final(self)@, battle_losers(old(self)@, attacker, target))
            }),
    {
        let dmg = self.battle_damage_preview(attacker, target);
        self.apply_battle_damage(dmg);
        self.apply_battle_destruction(attacker, target);
    }

    /// Deal already-computed battle damage `[player0, player1]`: player 0's
    /// first, then player 1's (damage is applied before destruction).
    pub(crate) fn apply_battle_damage(&mut self, dmg: [u32; 2])
        requires
            old(self).wf(),
        ensures
            final(self).wf(),
            final(self)@ == after_lp_loss(after_lp_loss(old(self)@, 0, dmg[0]), 1, dmg[1]),
    {
        self.deal_damage(PLAYER_0, dmg[0]);
        self.deal_damage(PLAYER_1, dmg[1]);
    }

    /// Destroy the battle's losers (see [`battle_losers`]), with no
    /// life-point effect. A direct attack destroys nothing.
    pub(crate) fn apply_battle_destruction(&mut self, attacker: CardId, target: Option<CardId>)
        requires
            old(self).wf(),
            battle_ready(old(self)@, attacker, target),
        ensures
            final(self).wf(),
            destroyed_all(old(self)@, final(self)@, battle_losers(old(self)@, attacker, target)),
            final(self)@.field.players_in_range(),
    {
        let target = match target {
            Some(t) => t,
            None => {
                return;
            },
        };
        let attacker_atk = match self.atk_of(attacker) {
            Some(a) => a,
            None => 0,
        };
        let target_in_attack = match self.position_of(target) {
            Some(p) => p.is_attack(),
            None => false,
        };
        let ghost v0 = self@;
        proof {
            v0.field.lemma_players_piles(attacker);
            v0.field.lemma_players_piles(target);
        }
        if target_in_attack {
            let defender_atk = match self.atk_of(target) {
                Some(a) => a,
                None => 0,
            };
            if attacker_atk > defender_atk {
                self.destroy(target, REASON_BATTLE);
            } else if attacker_atk < defender_atk {
                self.destroy(attacker, REASON_BATTLE);
            } else {
                self.destroy(target, REASON_BATTLE);
                let ghost mid = self@;
                proof {
                    mid.field.lemma_players_piles(attacker);
                }
                self.destroy(attacker, REASON_BATTLE);
                assert(Duel::destroy_step(v0, mid, target, REASON_BATTLE));
            }
        } else {
            let def = match self.def_of(target) {
                Some(d) => d,
                None => 0,
            };
            if attacker_atk > def {
                self.destroy(target, REASON_BATTLE);
            }
        }
    }

    /// Stash the damage the battle would deal (so a quick effect at the
    /// damage-calculation window can read it), then open the
    /// before-damage-calculation window (see [`Duel::open_event_window`]).
    pub(crate) fn open_before_damage_window<H: ScriptHost>(
        &mut self,
        attacker: CardId,
        target: Option<CardId>,
        host: &mut H,
    ) -> (opened: bool)
        requires
            old(self).wf(),
            Duel::sound(old(self)@),
        ensures
            final(self).wf(),
            Duel::sound(final(self)@),
            Duel::window_opened(old(self)@, final(self)@, EVENT_PRE_DAMAGE_CALCULATION, opened),
    {
        proof {
            Duel::lemma_sound_battle_ready(self@, attacker, target);
        }
        let dmg = self.battle_damage_preview(attacker, target);
        let ghost before = self@;
        self.effect_ctx.pending_damage = dmg;
        proof {
            Duel::lemma_sound_keep(before, self@);
        }
        self.open_event_window(EVENT_PRE_DAMAGE_CALCULATION, host)
    }

    /// `w` is `v` after trying to open a response window for `timing` with
    /// no chain: if `opened`, the window is open and the first player able
    /// to act in it (the turn player if they can) responds first, the other
    /// counted as passed when they cannot act; otherwise no window is open.
    pub open spec fn window_opened(v: DuelView, w: DuelView, timing: u32, opened: bool) -> bool {
        let tp = turn_player(v);
        if opened {
            &&& w.stack.len() == v.stack.len() + 1
            &&& w.stack.last() matches Processor::ChainResponse { step, player: first } && {
                &&& step == 0
                &&& first == tp || first == 1 - tp
                &&& !w.passes[first as int]
                &&& (first != tp ==> w.passes[tp as int])
            }
            &&& w == (DuelView {
                window_timing: Some(timing),
                passes: w.passes,
                stack: v.stack.push(w.stack.last()),
                ctx: w.ctx,
                calls: w.calls,
                ..v
            })
        } else {
            w == (DuelView { window_timing: None, ctx: w.ctx, calls: w.calls, ..v })
        }
    }

    /// Open a response window for a timing event while no chain is building
    /// (before or after damage calculation): a player holding a quick effect
    /// keyed to `timing` may act, the turn player first; a player with none
    /// is never prompted (counted as passed). Returns whether a window
    /// opened; if not, no timing window is left open.
    pub(crate) fn open_event_window<H: ScriptHost>(&mut self, timing: u32, host: &mut H) -> (opened: bool)
        requires
            old(self).wf(),
            Duel::sound(old(self)@),
        ensures
            final(self).wf(),
            Duel::sound(final(self)@),
            Duel::window_opened(old(self)@, final(self)@, timing, opened),
    {
        let ghost v0 = self@;
        self.window_timing = Some(timing);
        proof {
            Duel::lemma_sound_keep(v0, self@);
        }
        let tp: usize = match self.turn_hist.last() {
            Some(p) => *p,
            None => 0,
        };
        proof {
            if self@.turn_hist.len() > 0 {
                assert(self@.turn_hist[self@.turn_hist.len() - 1] < 2);
            }
        }
        assert(tp == turn_player(v0) && tp < 2);
        let other = 1 - tp;
        let tp_opts = self.response_options_for(tp, host);
        let other_opts = self.response_options_for(other, host);
        let tp_can = tp_opts.len() > 0;
        let other_can = other_opts.len() > 0;
        let first = if tp_can {
            tp
        } else if other_can {
            other
        } else {
            // Nobody can respond: no window.
            self.window_timing = None;
            return false;
        };
        let (can0, can1) = if tp == 0 {
            (tp_can, other_can)
        } else {
            (other_can, tp_can)
        };
        self.passes = [!can0, !can1];
        let ghost before = self@;
        self.processor_stack.push(Processor::ChainResponse { step: 0, player: first });
        proof {
            assert(self@.passes =~= seq![!can0, !can1]);
            Duel::lemma_sound_keep(v0, before);
            assert(Duel::unit_ok(Processor::ChainResponse { step: 0, player: first }, self@.effects.len()));
            assert forall|i: int| 0 <= i < self@.stack.len() implies Duel::unit_ok(#[trigger] self@.stack[i], self@.effects.len()) by {
                if i < before.stack.len() {
                    assert(self@.stack[i] == before.stack[i]);
                }
            }
            assert(self@.cards == v0.cards);
            assert(self@.chain == v0.chain);
        }
        true
    }
}

/// A direct attack hurts only the attacker's opponent, by the attacker's
/// full ATK; its own controller takes nothing. This holds whichever player
/// attacks.
pub proof fn lemma_direct_attack_damage(v: DuelView, attacker: CardId)
    requires
        controller(v, attacker) < 2,
        battle_ready(v, attacker, None),
    ensures
        battle_damage(v, attacker, None).len() == 2,
        battle_damage(v, attacker, None)[1 - controller(v, attacker)] == atk_or_zero(v, attacker),
        battle_damage(v, attacker, None)[controller(v, attacker) as int] == 0,
{
    let ap = controller(v, attacker);
    lemma_atk_in_range(v, attacker);
    if ap == 0 {
        assert(((ap + 1) % 2) as int == 1);
    } else {
        assert(((ap + 1) % 2) as int == 0);
    }
}

/// A battle between monsters of opposing players: an attack-position target
/// makes the controller of the lower ATK take the difference and the other
/// player nothing (neither on a tie); a defense-position target makes the
/// attacker's controller take how much the DEF exceeds the ATK, and its own
/// controller nothing.
pub proof fn lemma_monster_battle_damage(v: DuelView, attacker: CardId, target: CardId)
    requires
        controller(v, attacker) < 2,
        controller(v, target) == 1 - controller(v, attacker),
        battle_ready(v, attacker, Some(target)),
    ensures
        ({
            let dmg = battle_damage(v, attacker, Some(target));
            let ap = controller(v, attacker) as int;
            let tp = controller(v, target) as int;
            let a = atk_or_zero(v, attacker) as int;
            &&& dmg.len() == 2
            &&& in_attack(v, target) ==> {
                let d = atk_or_zero(v, target) as int;
                &&& dmg[tp] == (if a > d { a - d } else { 0 })
                &&& dmg[ap] == (if d > a { d - a } else { 0 })
            }
            &&& !in_attack(v, target) ==> {
                let d = def_or_zero(v, target) as int;
                &&& dmg[tp] == 0
                &&& dmg[ap] == (if d > a { d - a } else { 0 })
            }
        }),
{
    lemma_atk_in_range(v, attacker);
    lemma_atk_in_range(v, target);
}

/// A card whose stats fit has a non-negative ATK and DEF.
proof fn lemma_atk_in_range(v: DuelView, c: CardId)
    requires
        v.card(c) matches Some(card) ==> stats_fit(card),
    ensures
        atk_or_zero(v, c) >= 0,
        def_or_zero(v, c) >= 0,
{
    if let Some(card) = v.card(c) {
        super::board::lemma_fold_exact(card.data.atk, card.modifiers@, true);
        super::board::lemma_fold_exact(card.data.def, card.modifiers@, false);
    }
}

/// Who a battle destroys: nobody on a direct attack; against an
/// attack-position monster, each monster whose ATK is not above the other's
/// (both on a tie); against a defense-position monster, the target exactly
/// when the ATK beats its DEF, never the attacker. Only monsters of the
/// battle are destroyed, each once.
pub proof fn lemma_battle_losers(v: DuelView, attacker: CardId, target: Option<CardId>)
    requires
        target matches Some(t) ==> t != attacker,
    ensures
        target is None ==> battle_losers(v, attacker, target).len() == 0,
        target matches Some(t) ==> {
            let l = battle_losers(v, attacker, target);
            let a = atk_or_zero(v, attacker);
            &&& forall|i: int| 0 <= i < l.len() ==> (#[trigger] l[i] == t || l[i] == attacker)
            &&& forall|i: int, j: int| 0 <= i < j < l.len() ==> #[trigger] l[i] != #[trigger] l[j]
            &&& (l.contains(t) <==> if in_attack(v, t) {
                a >= atk_or_zero(v, t)
            } else {
                a > def_or_zero(v, t)
            })
            &&& (l.contains(attacker) <==> in_attack(v, t) && a <= atk_or_zero(v, t))
        },
{
    if let Some(t) = target {
        let l = battle_losers(v, attacker, target);
        if l.len() > 0 {
            assert(l[0] == t || l[0] == attacker);
        }
        if l.len() > 1 {
            assert(l[1] == attacker);
        }
    }
}

} // verus!
