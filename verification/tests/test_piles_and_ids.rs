//! Where added and moved cards land in the piles, and how ids behave.

use cardcrusher::card::Card;
use cardcrusher::duel::Duel;
use cardcrusher::effect::{decode, encode, relative_player};
use cardcrusher::zone::Zone;
use cardcrusher::{PLAYER_0, PLAYER_1};

/// A card added to a deck goes to its bottom: the card added first is
/// still the one drawn first.
#[test]
fn an_added_deck_card_goes_to_the_bottom() {
    let mut duel = Duel::new();
    let first = duel.add_to_deck(PLAYER_0, Card::new(1));
    let second = duel.add_to_deck(PLAYER_0, Card::new(2));
    assert_eq!(duel.deck_count(PLAYER_0), 2);
    assert_eq!(duel.draw(PLAYER_0, 1), vec![first]);
    assert_eq!(duel.draw(PLAYER_0, 1), vec![second]);
}

/// A card sent to a hand or a deck joins that pile, so the counts stay
/// right.
#[test]
fn a_card_sent_to_a_hand_or_deck_joins_the_pile() {
    let mut duel = Duel::new();
    let card = duel.add_to_hand(PLAYER_1, Card::new(5));
    duel.send_to(card, Zone::MonsterZone);
    assert_eq!(duel.hand_count(PLAYER_1), 0);
    duel.send_to(card, Zone::Hand);
    assert_eq!(duel.hand_count(PLAYER_1), 1);
    assert_eq!(duel.hand_card(PLAYER_1, 0), Some(card));
    duel.send_to(card, Zone::Deck);
    assert_eq!(duel.hand_count(PLAYER_1), 0);
    assert_eq!(duel.deck_count(PLAYER_1), 1);
    assert_eq!(duel.draw(PLAYER_1, 1), vec![card]);
    assert_eq!(duel.hand_count(PLAYER_1), 1);
}

/// Sending a card to the pile it is already in keeps one copy of it.
#[test]
fn a_card_sent_to_its_own_pile_is_counted_once() {
    let mut duel = Duel::new();
    let card = duel.add_to_hand(PLAYER_0, Card::new(5));
    duel.send_to(card, Zone::Hand);
    assert_eq!(duel.hand_count(PLAYER_0), 1);
}

/// Drawing one card twice moves the same cards as drawing two at once.
#[test]
fn drawing_twice_is_drawing_the_sum() {
    let mut once = Duel::new();
    let mut twice = Duel::new();
    for code in 0..4u32 {
        once.add_to_deck(PLAYER_0, Card::new(code));
        twice.add_to_deck(PLAYER_0, Card::new(code));
    }
    let all = once.draw(PLAYER_0, 2);
    let mut parts = twice.draw(PLAYER_0, 1);
    parts.extend(twice.draw(PLAYER_0, 1));
    assert_eq!(all, parts);
    assert_eq!(once.deck_count(PLAYER_0), twice.deck_count(PLAYER_0));
    assert_eq!(once.hand_count(PLAYER_0), twice.hand_count(PLAYER_0));
}

/// A removed id stays dead: a later card gets another id, and the old id
/// finds nothing.
#[test]
fn a_removed_id_is_never_given_out_again() {
    let mut duel = Duel::new();
    let gone = duel.add_card(Card::new(7));
    assert!(duel.remove_card(gone).is_some());
    for code in 0..5u32 {
        let id = duel.add_card(Card::new(code));
        assert_ne!(id, gone);
        assert!(duel.get_card(gone).is_none());
    }
    assert!(duel.remove_card(gone).is_none());
}

/// A script-side integer with the generation's low bit cleared still names
/// the card, as the slot map's own keys do.
#[test]
fn decoding_forces_the_generation_odd() {
    let mut duel = Duel::new();
    let id = duel.add_card(Card::new(3));
    let raw = encode(id);
    let even = raw & !(1i64 << 32);
    assert_ne!(raw, even);
    assert_eq!(decode(even), id);
    assert_eq!(duel.get_card(decode(even)).map(|c| c.code), Some(3));
}

/// A fresh duel has room for cards.
#[test]
fn a_fresh_duel_has_room() {
    assert!(Duel::new().has_room());
}

/// Scripts name players relative to the activator.
#[test]
fn script_players_are_relative_to_the_activator() {
    assert_eq!(relative_player(0, 0), 0);
    assert_eq!(relative_player(1, 0), 1);
    assert_eq!(relative_player(0, 1), 1);
    assert_eq!(relative_player(1, 1), 0);
    assert_eq!(relative_player(2, 1), 1);
    assert_eq!(relative_player(0, 3), 1);
}
