//! Card stats (the printed record): a code that was never loaded.

use cardcrusher::duel::Duel;

/// A code that was never loaded makes a bare card — zeroed stats, not a panic.
#[test]
fn an_unknown_code_makes_a_bare_card() {
    let duel = Duel::new();
    let ghost = duel.make_card(99999999);
    assert_eq!(ghost.data.atk, 0);
    assert_eq!(ghost.data.card_type, 0);
    assert_eq!(ghost.data.text, "");
}
