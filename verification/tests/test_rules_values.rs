//! Exact values of the rule formulas, and the driver's standing promises on
//! concrete games.

use cardcrusher::card::{Card, CardData};
use cardcrusher::duel::{Duel, Winner};
use cardcrusher::effect::{decode, encode, encode_ids, spell_speed, EffectKind, SPELL_QUICKPLAY, TRAP_COUNTER, TYPE_SPELL, TYPE_TRAP};
use cardcrusher::ids::CardId;
use cardcrusher::position::Position;
use cardcrusher::processor::DuelStatus;
use cardcrusher::zone::Zone;
use cardcrusher::{CMD_ATTACK, CMD_NEXT_PHASE, PLAYER_0, PLAYER_1};

#[test]
fn spell_speeds_follow_the_kind_and_the_card_type() {
    assert_eq!(spell_speed(EffectKind::Quick, 0, None, None), 2);
    assert_eq!(spell_speed(EffectKind::Ignition, 0, None, None), 1);
    assert_eq!(spell_speed(EffectKind::Trigger, 0, None, None), 1);
    assert_eq!(spell_speed(EffectKind::Activate, TYPE_TRAP, None, Some(TRAP_COUNTER)), 3);
    assert_eq!(spell_speed(EffectKind::Activate, TYPE_TRAP, None, Some(0)), 2);
    assert_eq!(spell_speed(EffectKind::Activate, TYPE_SPELL, Some(SPELL_QUICKPLAY), None), 2);
    assert_eq!(spell_speed(EffectKind::Activate, TYPE_SPELL, Some(0), None), 1);
    assert_eq!(spell_speed(EffectKind::Activate, 0, None, None), 0);
}

#[test]
fn kind_codes_map_to_kinds() {
    assert_eq!(EffectKind::from_code(0), EffectKind::Activate);
    assert_eq!(EffectKind::from_code(1), EffectKind::Ignition);
    assert_eq!(EffectKind::from_code(2), EffectKind::Quick);
    assert_eq!(EffectKind::from_code(3), EffectKind::Trigger);
    assert_eq!(EffectKind::from_code(77), EffectKind::Activate);
}

#[test]
fn a_card_id_survives_the_script_encoding() {
    let mut duel = Duel::new();
    let a = duel.add_card(Card::new(0));
    let b = duel.add_card(Card::new(0));
    assert_eq!(decode(encode(a)), a);
    assert_eq!(decode(encode(b)), b);
    assert_ne!(encode(a), encode(b));
    assert_eq!(CardId::from_ffi(a.to_ffi()), a);
    let ids = encode_ids(&[a, b]);
    assert_eq!(ids, vec![encode(a), encode(b)]);
}

#[test]
fn the_damage_preview_matches_the_applied_damage() {
    let mut duel = Duel::new();
    let attacker = duel.add_card(Card::with_data(1, CardData { atk: 2100, ..Default::default() }));
    duel.place(PLAYER_0, attacker, Zone::MonsterZone);
    duel.change_position(attacker, Position::FaceUpAttack);
    let target = duel.add_card(Card::with_data(1, CardData { atk: 1600, ..Default::default() }));
    duel.place(PLAYER_1, target, Zone::MonsterZone);
    duel.change_position(target, Position::FaceUpAttack);

    assert_eq!(duel.battle_damage_preview(attacker, Some(target)), [0, 500]);
    duel.resolve_battle(attacker, Some(target));
    assert_eq!(duel.life_points(PLAYER_1), 7500);
    assert_eq!(duel.life_points(PLAYER_0), 8000);
}

#[test]
fn life_points_never_go_up_and_the_outbox_only_grows() {
    let mut duel = Duel::new();
    duel.set_max_turns(4);
    for _ in 0..10 {
        duel.add_to_deck(PLAYER_0, Card::new(0));
        duel.add_to_deck(PLAYER_1, Card::new(0));
    }
    let attacker = duel.add_card(Card::with_data(1, CardData { atk: 900, ..Default::default() }));
    duel.place(PLAYER_0, attacker, Zone::MonsterZone);
    duel.change_position(attacker, Position::FaceUpAttack);
    duel.start();

    let mut seen: Vec<u8> = Vec::new();
    let mut lps = [8000u32, 8000u32];
    let mut attack_next = true;
    loop {
        let status = duel.process();
        let now = duel.messages().to_vec();
        assert!(now.starts_with(&seen), "the outbox only grows");
        seen = now;
        for p in [PLAYER_0, PLAYER_1] {
            assert!(duel.life_points(p) <= lps[p], "life points never go up");
            lps[p] = duel.life_points(p);
        }
        match status {
            DuelStatus::End => break,
            DuelStatus::Awaiting => {
                if attack_next {
                    duel.set_response(&[CMD_ATTACK, 0]);
                } else {
                    duel.set_response(&[CMD_NEXT_PHASE]);
                }
                attack_next = !attack_next;
            },
            DuelStatus::Continue => unreachable!(),
        }
    }
    assert_eq!(duel.life_points(PLAYER_1), 8000 - 2 * 900);
}

#[test]
fn a_decided_duel_runs_nothing_more() {
    let mut duel = Duel::new();
    duel.start();
    duel.pay_lp(PLAYER_1, 9000);
    assert_eq!(duel.result(), Some(Winner::Player(PLAYER_0)));
    let before = duel.messages().len();
    assert_eq!(duel.step(), DuelStatus::End);
    assert_eq!(duel.process(), DuelStatus::End);
    assert_eq!(duel.messages().len(), before);
    assert!(duel.turn_history().is_empty());
}

#[test]
fn each_turn_the_normal_summon_and_attack_limits_come_back() {
    let mut duel = Duel::new();
    duel.set_max_turns(1);
    duel.add_to_deck(PLAYER_0, Card::new(0));
    let a = duel.add_to_hand(PLAYER_0, Card::new(0));
    assert!(duel.can_normal_summon(PLAYER_0));
    duel.record_normal_summon(PLAYER_0);
    assert!(!duel.can_normal_summon(PLAYER_0));
    duel.summon(a);
    duel.declare_attack(a, None);
    assert!(duel.attackers(PLAYER_0).is_empty());

    duel.start();
    assert_eq!(duel.process(), DuelStatus::Awaiting, "main phase 1 of the new turn");
    assert!(duel.can_normal_summon(PLAYER_0), "a fresh turn gives the Normal Summon back");
    assert_eq!(duel.attackers(PLAYER_0), vec![a], "and the attack back");
}
