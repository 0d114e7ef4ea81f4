//! The verbs a card script uses to record what it wants done.

use cardcrusher::card::Card;
use cardcrusher::duel::Duel;
use cardcrusher::effect::{encode, script_monster_zone, CostType, EffectContext};
use cardcrusher::zone::Zone;
use cardcrusher::{PLAYER_0, PLAYER_1};

#[test]
fn destroy_records_the_decoded_cards_in_order() {
    let mut duel = Duel::new();
    let a = duel.add_card(Card::new(1));
    let b = duel.add_card(Card::new(2));
    let mut ctx = EffectContext::default();
    ctx.record_destroy(&[encode(b), encode(a)]);
    assert_eq!(ctx.to_destroy, vec![b, a]);
    assert!(ctx.to_move.is_empty());
}

#[test]
fn send_records_moves_and_ignores_unknown_zones() {
    let mut duel = Duel::new();
    let a = duel.add_card(Card::new(1));
    let mut ctx = EffectContext::default();
    ctx.record_send(&[encode(a)], 1);
    assert_eq!(ctx.to_move, vec![(a, Zone::Hand)]);
    ctx.record_send(&[encode(a)], 99);
    assert_eq!(ctx.to_move, vec![(a, Zone::Hand)]);
}

#[test]
fn pay_lp_declares_a_life_point_cost() {
    let mut ctx = EffectContext::default();
    ctx.record_lp_cost(500);
    assert_eq!(ctx.costs, vec![CostType::LifePoints(500)]);
}

#[test]
fn prompt_selection_replaces_the_candidates() {
    let mut duel = Duel::new();
    let a = duel.add_card(Card::new(1));
    let b = duel.add_card(Card::new(2));
    let mut ctx = EffectContext::default();
    ctx.record_candidates(&[encode(a)]);
    ctx.record_candidates(&[encode(b), encode(a)]);
    assert_eq!(ctx.candidates, vec![b, a]);
}

#[test]
fn monster_zone_is_read_relative_to_the_activator() {
    let mut duel = Duel::new();
    let mine = duel.add_card(Card::new(1));
    duel.place(PLAYER_0, mine, Zone::MonsterZone);
    let theirs = duel.add_card(Card::new(2));
    duel.place(PLAYER_1, theirs, Zone::MonsterZone);
    let zones = [duel.monster_zone(PLAYER_0), duel.monster_zone(PLAYER_1)];
    assert_eq!(script_monster_zone(&zones, 0, PLAYER_0), vec![encode(mine)]);
    assert_eq!(script_monster_zone(&zones, 1, PLAYER_0), vec![encode(theirs)]);
    assert_eq!(script_monster_zone(&zones, 0, PLAYER_1), vec![encode(theirs)]);
}
