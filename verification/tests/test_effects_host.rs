//! Effects run through a script host written in Rust: activation, costs,
//! targets, the chain, triggers and queued rules.

use cardcrusher::card::CardData;
use cardcrusher::duel::Duel;
use cardcrusher::effect::{
    CostType, EffectContext, EffectInfo, EffectKind, Subscription, SPELL_QUICKPLAY, TYPE_SPELL,
};
use cardcrusher::event::{EVENT_BATTLE_ENDED, EVENT_DESTROYED, EVENT_PRE_DAMAGE_CALCULATION};
use cardcrusher::modifiers::ModifierType;
use cardcrusher::position::Position;
use cardcrusher::ids::CardId;
use cardcrusher::processor::DuelStatus;
use cardcrusher::reason::{REASON_BATTLE, REASON_DESTROY, REASON_EFFECT};
use cardcrusher::script::{NoScripts, ScriptError, ScriptHost};
use cardcrusher::zone::Zone;
use cardcrusher::card::Card;
use cardcrusher::{
    CMD_ACTIVATE, CMD_ATTACK, CMD_PASS, CMD_RESPONSE, MSG_SELECT_CHAIN, MSG_SELECT_IDLECMD, MSG_SELECT_YESNO, PLAYER_0,
    PLAYER_1,
};

/// What one registered effect's stages do.
#[derive(Clone, Default)]
struct Stages {
    /// `condition` says no.
    blocked: bool,
    /// `cost` declares this many life points (0: no cost).
    lp_cost: u32,
    /// `target` pauses offering the opponent's monsters.
    targets_foes: bool,
    /// `resolve` destroys the chosen targets.
    destroys_targets: bool,
    /// `resolve` queues a rule on the end of a battle with this many firings.
    queues_rule: Option<u32>,
}

/// A script host whose effects are described by `Stages`, recording what ran.
#[derive(Default)]
struct TestHost {
    stages: Vec<Stages>,
    kept: Option<usize>,
    resolved: Vec<usize>,
    fired: Vec<usize>,
}

impl ScriptHost for TestHost {
    fn condition(&mut self, _duel: &Duel, _ctx: &mut EffectContext, effect: usize) -> Result<bool, ScriptError> {
        Ok(!self.stages[effect].blocked)
    }

    fn target(&mut self, duel: &Duel, ctx: &mut EffectContext, effect: usize, keep: bool) -> Result<bool, ScriptError> {
        if self.stages[effect].targets_foes {
            ctx.candidates = duel.monster_zone(1 - ctx.activator);
            if keep {
                self.kept = Some(effect);
            }
            Ok(true)
        } else {
            Ok(false)
        }
    }

    fn resume(&mut self, _duel: &Duel, _ctx: &mut EffectContext) -> Result<(), ScriptError> {
        match self.kept.take() {
            Some(_) => Ok(()),
            None => Err(ScriptError { message: "nothing to resume".to_string() }),
        }
    }

    fn cost(&mut self, _duel: &Duel, ctx: &mut EffectContext, effect: usize) -> Result<(), ScriptError> {
        let n = self.stages[effect].lp_cost;
        if n > 0 {
            ctx.costs.push(CostType::LifePoints(n));
        }
        Ok(())
    }

    fn resolve(&mut self, _duel: &Duel, ctx: &mut EffectContext, effect: usize) -> Result<(), ScriptError> {
        self.resolved.push(effect);
        if self.stages[effect].destroys_targets {
            let targets = ctx.targets.clone();
            ctx.to_destroy.extend(targets);
        }
        if let Some(n) = self.stages[effect].queues_rule {
            ctx.subscriptions_to_add.push(Subscription { event: EVENT_BATTLE_ENDED, remaining: n, handle: effect });
        }
        Ok(())
    }

    fn fire(&mut self, _duel: &Duel, _ctx: &mut EffectContext, handle: usize) -> Result<(), ScriptError> {
        self.fired.push(handle);
        Ok(())
    }
}

fn spell_data() -> CardData {
    CardData { card_type: TYPE_SPELL, spell_type: Some(0), ..Default::default() }
}

fn quick_play_data() -> CardData {
    CardData { card_type: TYPE_SPELL, spell_type: Some(SPELL_QUICKPLAY), ..Default::default() }
}

/// Register a card `code` with one effect of `kind` doing `stages`.
fn register(duel: &mut Duel, host: &mut TestHost, code: u32, data: CardData, kind: EffectKind, stages: Stages) {
    duel.register_card(code, data);
    duel.register_effect(EffectInfo { code, kind, event: 0, optional: false });
    host.stages.push(stages);
}

/// A copy of card `code` in `player`'s hand.
fn in_hand(duel: &mut Duel, player: usize, code: u32) -> CardId {
    let card = duel.make_card(code);
    duel.add_to_hand(player, card)
}

/// A monster of `code` on `player`'s field.
fn on_field(duel: &mut Duel, player: usize, code: u32) -> CardId {
    let card = duel.make_card(code);
    let id = duel.add_card(card);
    duel.place(player, id, Zone::MonsterZone);
    id
}

#[test]
fn an_effect_slot_that_does_not_exist_changes_nothing() {
    let mut duel = Duel::new();
    let mut host = TestHost::default();
    register(&mut duel, &mut host, 10, spell_data(), EffectKind::Activate, Stages::default());
    let card = in_hand(&mut duel, PLAYER_0, 10);

    assert_eq!(duel.activate(card, 3, PLAYER_0, &mut host), Ok(DuelStatus::End));
    assert_eq!(duel.chain_length(), 0);
    assert_eq!(duel.zone_of(card), Some(Zone::Hand));
}

#[test]
fn a_false_condition_rejects_the_activation_without_cost() {
    let mut duel = Duel::new();
    let mut host = TestHost::default();
    let stages = Stages { blocked: true, lp_cost: 1000, ..Default::default() };
    register(&mut duel, &mut host, 10, spell_data(), EffectKind::Activate, stages);
    let card = in_hand(&mut duel, PLAYER_0, 10);

    assert_eq!(duel.activate(card, 0, PLAYER_0, &mut host), Ok(DuelStatus::End));
    assert_eq!(duel.chain_length(), 0);
    assert_eq!(duel.life_points(PLAYER_0), 8000, "a rejected activation pays nothing");
    assert_eq!(duel.zone_of(card), Some(Zone::Hand));
}

#[test]
fn an_unpayable_cost_rejects_the_activation_and_pays_nothing() {
    let mut duel = Duel::new();
    let mut host = TestHost::default();
    let stages = Stages { lp_cost: 8001, ..Default::default() };
    register(&mut duel, &mut host, 10, spell_data(), EffectKind::Activate, stages);
    let card = in_hand(&mut duel, PLAYER_0, 10);

    assert_eq!(duel.activate(card, 0, PLAYER_0, &mut host), Ok(DuelStatus::End));
    assert_eq!(duel.chain_length(), 0);
    assert_eq!(duel.life_points(PLAYER_0), 8000);
    assert_eq!(duel.zone_of(card), Some(Zone::Hand), "the card stays in the hand");
}

#[test]
fn paying_exactly_all_life_points_is_legal() {
    let mut duel = Duel::new();
    let mut host = TestHost::default();
    let stages = Stages { lp_cost: 8000, ..Default::default() };
    register(&mut duel, &mut host, 10, spell_data(), EffectKind::Activate, stages);
    let card = in_hand(&mut duel, PLAYER_0, 10);

    assert_eq!(duel.activate(card, 0, PLAYER_0, &mut host), Ok(DuelStatus::End));
    assert_eq!(duel.chain_length(), 1);
    assert_eq!(duel.life_points(PLAYER_0), 0);
}

#[test]
fn a_committed_spell_goes_to_the_field_then_the_graveyard() {
    let mut duel = Duel::new();
    let mut host = TestHost::default();
    let stages = Stages { lp_cost: 1000, ..Default::default() };
    register(&mut duel, &mut host, 10, spell_data(), EffectKind::Activate, stages);
    let card = in_hand(&mut duel, PLAYER_0, 10);

    assert_eq!(duel.activate(card, 0, PLAYER_0, &mut host), Ok(DuelStatus::End));
    assert_eq!(duel.chain_length(), 1);
    assert_eq!(duel.chain_activators(), vec![PLAYER_0]);
    assert_eq!(duel.life_points(PLAYER_0), 7000, "the cost is paid on commitment");
    assert_eq!(duel.zone_of(card), Some(Zone::SpellTrapZone));

    duel.resolve_chain(&mut host);
    assert_eq!(duel.chain_length(), 0);
    assert_eq!(host.resolved, vec![0]);
    assert_eq!(duel.zone_of(card), Some(Zone::GY), "a resolved spell goes to the GY");
}

#[test]
fn a_targeting_effect_freezes_then_destroys_the_pick() {
    let mut duel = Duel::new();
    let mut host = TestHost::default();
    let stages = Stages { targets_foes: true, destroys_targets: true, ..Default::default() };
    register(&mut duel, &mut host, 10, spell_data(), EffectKind::Activate, stages);
    register(&mut duel, &mut host, 20, CardData { atk: 1000, ..Default::default() }, EffectKind::Ignition, Stages::default());
    let card = in_hand(&mut duel, PLAYER_0, 10);
    let foe = on_field(&mut duel, PLAYER_1, 20);

    assert_eq!(duel.activate(card, 0, PLAYER_0, &mut host), Ok(DuelStatus::Awaiting));
    assert_eq!(duel.candidates(), vec![foe]);
    assert_eq!(duel.chain_length(), 0, "frozen, not yet on the chain");

    duel.answer_selection(vec![0]);
    assert_eq!(duel.resume(&mut host), Ok(DuelStatus::End));
    assert_eq!(duel.chain_length(), 1);

    duel.resolve_chain(&mut host);
    assert_eq!(duel.zone_of(foe), Some(Zone::GY));
    let destroyed = duel.get_card(foe).unwrap();
    assert_eq!(destroyed.reason, REASON_DESTROY | REASON_EFFECT);
    assert_eq!(duel.zone_of(card), Some(Zone::GY));
}

#[test]
fn no_candidate_rejects_the_activation_without_cost() {
    let mut duel = Duel::new();
    let mut host = TestHost::default();
    let stages = Stages { targets_foes: true, lp_cost: 500, ..Default::default() };
    register(&mut duel, &mut host, 10, spell_data(), EffectKind::Activate, stages);
    let card = in_hand(&mut duel, PLAYER_0, 10);

    assert_eq!(duel.activate(card, 0, PLAYER_0, &mut host), Ok(DuelStatus::End));
    assert_eq!(duel.chain_length(), 0);
    assert_eq!(duel.life_points(PLAYER_0), 8000);
    assert_eq!(duel.activatable_effects(PLAYER_0, &mut host), vec![], "not offered either");
}

#[test]
fn the_chain_resolves_its_last_link_first() {
    let mut duel = Duel::new();
    let mut host = TestHost::default();
    register(&mut duel, &mut host, 10, spell_data(), EffectKind::Activate, Stages::default());
    register(&mut duel, &mut host, 11, quick_play_data(), EffectKind::Activate, Stages::default());
    let first = in_hand(&mut duel, PLAYER_0, 10);
    let second = in_hand(&mut duel, PLAYER_1, 11);

    assert_eq!(duel.activate(first, 0, PLAYER_0, &mut host), Ok(DuelStatus::End));
    assert_eq!(duel.activate(second, 0, PLAYER_1, &mut host), Ok(DuelStatus::End));
    assert_eq!(duel.chain_activators(), vec![PLAYER_0, PLAYER_1]);

    duel.resolve_chain(&mut host);
    assert_eq!(host.resolved, vec![1, 0], "link 2 resolves before link 1");
}

#[test]
fn only_fast_enough_hand_cards_may_respond() {
    let mut duel = Duel::new();
    let mut host = TestHost::default();
    register(&mut duel, &mut host, 10, spell_data(), EffectKind::Activate, Stages::default());
    register(&mut duel, &mut host, 11, quick_play_data(), EffectKind::Activate, Stages::default());
    let opener = in_hand(&mut duel, PLAYER_0, 10);
    let slow = in_hand(&mut duel, PLAYER_1, 10);
    let quick = in_hand(&mut duel, PLAYER_1, 11);

    assert_eq!(duel.activate(opener, 0, PLAYER_0, &mut host), Ok(DuelStatus::End));
    let options = duel.chain_response_options(&mut host);
    assert_eq!(duel.chain_responder(), 0);
    let answers = duel.response_options_for(PLAYER_1, &mut host);
    assert_eq!(answers, vec![(quick, 0)], "a speed-1 spell cannot respond");
    assert!(!answers.contains(&(slow, 0)));
    assert_eq!(options, vec![], "player 0 holds nothing to respond with");
}

#[test]
fn simultaneous_triggers_put_the_turn_players_first() {
    let mut duel = Duel::new();
    let mut host = TestHost::default();
    duel.register_card(30, CardData { atk: 100, ..Default::default() });
    duel.register_effect(EffectInfo { code: 30, kind: EffectKind::Trigger, event: EVENT_DESTROYED, optional: false });
    host.stages.push(Stages::default());
    let theirs = on_field(&mut duel, PLAYER_1, 30);
    let mine = on_field(&mut duel, PLAYER_0, 30);

    // The opponent's monster goes first, yet the turn player's trigger leads.
    duel.destroy(theirs, REASON_BATTLE);
    duel.destroy(mine, REASON_BATTLE);
    duel.process_events(&mut host);

    assert_eq!(duel.chain_activators(), vec![PLAYER_0, PLAYER_1]);
    duel.resolve_chain(&mut host);
    assert_eq!(host.resolved, vec![0, 0]);
    assert_eq!(duel.chain_length(), 0);
}

#[test]
fn a_queued_rule_fires_once_per_event_until_it_runs_out() {
    let mut duel = Duel::new();
    let mut host = TestHost::default();
    let stages = Stages { queues_rule: Some(2), ..Default::default() };
    register(&mut duel, &mut host, 10, spell_data(), EffectKind::Activate, stages);
    let card = in_hand(&mut duel, PLAYER_0, 10);

    assert_eq!(duel.activate(card, 0, PLAYER_0, &mut host), Ok(DuelStatus::End));
    duel.resolve_chain(&mut host);

    duel.fire_subscriptions(EVENT_DESTROYED, &mut host);
    assert!(host.fired.is_empty(), "a rule fires only on its own event");
    duel.fire_subscriptions(EVENT_BATTLE_ENDED, &mut host);
    duel.fire_subscriptions(EVENT_BATTLE_ENDED, &mut host);
    duel.fire_subscriptions(EVENT_BATTLE_ENDED, &mut host);
    assert_eq!(host.fired, vec![0, 0], "two firings, then it expires");
}

#[test]
fn activating_from_the_menu_passes_through_a_response_window() {
    let mut duel = Duel::new();
    let mut host = TestHost::default();
    let stages = Stages { lp_cost: 500, ..Default::default() };
    register(&mut duel, &mut host, 10, spell_data(), EffectKind::Activate, stages);
    let card = in_hand(&mut duel, PLAYER_0, 10);

    duel.idle_command();
    assert_eq!(duel.process_with(&mut host), DuelStatus::Awaiting);
    duel.set_response(&[CMD_ACTIVATE, 0]);
    assert_eq!(duel.process_with(&mut host), DuelStatus::Awaiting);
    assert_eq!(duel.messages().last(), Some(&MSG_SELECT_CHAIN));
    assert_eq!(duel.chain_responder(), PLAYER_1, "the opponent may respond first");
    assert_eq!(duel.zone_of(card), Some(Zone::SpellTrapZone));

    duel.set_response(&[CMD_PASS]);
    assert_eq!(duel.process_with(&mut host), DuelStatus::Awaiting);
    assert_eq!(duel.chain_responder(), PLAYER_0, "the window moves to the other player");
    duel.set_response(&[CMD_PASS]);
    assert_eq!(duel.process_with(&mut host), DuelStatus::Awaiting);
    assert_eq!(duel.messages().last(), Some(&MSG_SELECT_IDLECMD), "back to the menu");
    assert_eq!(duel.zone_of(card), Some(Zone::GY));
    assert_eq!(duel.life_points(PLAYER_0), 7500);
}

#[test]
fn with_no_scripts_an_activation_is_a_script_error() {
    let mut duel = Duel::new();
    duel.register_card(10, spell_data());
    duel.register_effect(EffectInfo { code: 10, kind: EffectKind::Activate, event: 0, optional: false });
    let card = in_hand(&mut duel, PLAYER_0, 10);

    assert!(duel.activate(card, 0, PLAYER_0, &mut NoScripts).is_err());
    assert_eq!(duel.chain_length(), 0);
    assert_eq!(duel.zone_of(card), Some(Zone::Hand));
}

/// A host whose one effect, when it resolves, protects its activator from
/// battle damage.
struct GuardHost {
    resolved: usize,
}

impl ScriptHost for GuardHost {
    fn condition(&mut self, _duel: &Duel, _ctx: &mut EffectContext, _effect: usize) -> Result<bool, ScriptError> {
        Ok(true)
    }

    fn target(&mut self, _duel: &Duel, _ctx: &mut EffectContext, _effect: usize, _keep: bool) -> Result<bool, ScriptError> {
        Ok(false)
    }

    fn resume(&mut self, _duel: &Duel, _ctx: &mut EffectContext) -> Result<(), ScriptError> {
        Ok(())
    }

    fn cost(&mut self, _duel: &Duel, _ctx: &mut EffectContext, _effect: usize) -> Result<(), ScriptError> {
        Ok(())
    }

    fn resolve(&mut self, _duel: &Duel, ctx: &mut EffectContext, _effect: usize) -> Result<(), ScriptError> {
        self.resolved += 1;
        let who = ctx.activator;
        let source = ctx.self_card.unwrap();
        ctx.player_mods_to_add.push((900, who, source, ModifierType::NoBattleDamage));
        Ok(())
    }

    fn fire(&mut self, _duel: &Duel, _ctx: &mut EffectContext, _handle: usize) -> Result<(), ScriptError> {
        Ok(())
    }
}

#[test]
fn a_quick_effect_at_the_damage_window_protects_its_player() {
    let mut duel = Duel::new();
    let mut host = GuardHost { resolved: 0 };
    duel.register_card(40, CardData::default());
    duel.register_effect(EffectInfo {
        code: 40,
        kind: EffectKind::Quick,
        event: EVENT_PRE_DAMAGE_CALCULATION,
        optional: false,
    });
    let guard = in_hand(&mut duel, PLAYER_1, 40);
    let attacker = duel.add_card(Card::with_data(1, CardData { atk: 1500, ..Default::default() }));
    duel.place(PLAYER_0, attacker, Zone::MonsterZone);
    duel.change_position(attacker, Position::FaceUpAttack);

    duel.battle_command();
    assert_eq!(duel.process_with(&mut host), DuelStatus::Awaiting);
    duel.set_response(&[CMD_ATTACK, 0]);
    assert_eq!(duel.process_with(&mut host), DuelStatus::Awaiting);
    assert_eq!(duel.messages().last(), Some(&MSG_SELECT_CHAIN), "the defender may respond");
    assert_eq!(duel.chain_responder(), PLAYER_1);

    duel.set_response(&[CMD_RESPONSE, 0]);
    assert_eq!(duel.process_with(&mut host), DuelStatus::Awaiting);
    assert_eq!(duel.chain_length(), 1);
    duel.set_response(&[CMD_PASS]);
    assert_eq!(duel.process_with(&mut host), DuelStatus::Awaiting);
    duel.set_response(&[CMD_PASS]);
    duel.process_with(&mut host);

    assert_eq!(host.resolved, 1);
    assert_eq!(duel.life_points(PLAYER_1), 8000, "the protected player takes no battle damage");
    assert!(!duel.can_take_battle_damage(PLAYER_1));
    assert_eq!(duel.zone_of(guard), Some(Zone::Hand), "a quick effect's card is not moved");
}

#[test]
fn an_optional_trigger_asks_and_resolves_only_on_yes() {
    for (answer, expected) in [(1u8, vec![0usize]), (0u8, vec![])] {
        let mut duel = Duel::new();
        let mut host = TestHost::default();
        duel.register_card(30, CardData { atk: 100, ..Default::default() });
        duel.register_effect(EffectInfo { code: 30, kind: EffectKind::Trigger, event: EVENT_DESTROYED, optional: true });
        host.stages.push(Stages::default());
        let mine = on_field(&mut duel, PLAYER_0, 30);

        duel.destroy(mine, REASON_BATTLE);
        duel.process_events(&mut host);
        assert_eq!(duel.chain_length(), 0, "an optional trigger asks instead of chaining");
        assert_eq!(duel.process_with(&mut host), DuelStatus::Awaiting);
        assert_eq!(duel.messages().last(), Some(&MSG_SELECT_YESNO));
        duel.set_response(&[answer]);
        assert_eq!(duel.process_with(&mut host), DuelStatus::End);
        assert_eq!(host.resolved, expected);
    }
}

/// The main-phase offer keeps exactly the effects whose condition passes,
/// in hand order.
#[test]
fn only_effects_whose_condition_passes_are_offered() {
    let mut duel = Duel::new();
    let mut host = TestHost::default();
    register(&mut duel, &mut host, 10, spell_data(), EffectKind::Activate, Stages::default());
    register(&mut duel, &mut host, 11, spell_data(), EffectKind::Activate, Stages { blocked: true, ..Default::default() });
    register(&mut duel, &mut host, 12, spell_data(), EffectKind::Activate, Stages::default());
    let first = in_hand(&mut duel, PLAYER_0, 10);
    in_hand(&mut duel, PLAYER_0, 11);
    let third = in_hand(&mut duel, PLAYER_0, 12);

    assert_eq!(duel.activatable_effects(PLAYER_0, &mut host), vec![(first, 0), (third, 0)]);
}

/// A card sent back to the hand by an effect is counted in the hand again.
#[test]
fn an_effect_returning_a_monster_to_hand_counts_it_there() {
    let mut duel = Duel::new();
    let monster = on_field(&mut duel, PLAYER_1, 20);
    assert_eq!(duel.hand_count(PLAYER_1), 0);
    duel.send_to(monster, Zone::Hand);
    assert_eq!(duel.hand_count(PLAYER_1), 1);
    assert_eq!(duel.zone_of(monster), Some(Zone::Hand));
}
