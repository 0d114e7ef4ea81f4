//! The board and game state: the card arena, deck/hand piles, zones and
//! movement, card stats, life points, win conditions, and modifiers.

use vstd::prelude::*;

use crate::arena::{
    arena_cards, arena_get, arena_get_mut, arena_insert, arena_keys, arena_remove, probe_key,
};
use crate::card::{Card, CardData};
use crate::constants::{PLAYER_0, PLAYER_1};
use crate::event::{DuelEvent, EVENT_BATTLE_DESTROYED, EVENT_DESTROYED};
use crate::field::{place_all, Field};
use crate::ids::CardId;
use crate::modifiers::{Modifier, ModifierType};
use crate::position::Position;
use crate::reason::{Reason, REASON_BATTLE, REASON_DESTROY};
use crate::zone::Zone;

use std::collections::BTreeMap;

use crate::effect::EffectContext;

use super::{Duel, DuelView, WinReason, Winner};

verus! {

/// The value a modifier sets the stat to (ATK when `atk`, else DEF), if it
/// is a "set" of that stat.
pub open spec fn set_value(m: ModifierType, atk: bool) -> Option<i32> {
    match m {
        ModifierType::SetAtk(n) => if atk {
            Some(n)
        } else {
            None
        },
        ModifierType::SetDef(n) => if atk {
            None
        } else {
            Some(n)
        },
        _ => None,
    }
}

/// The amount a modifier changes the stat by (ATK when `atk`, else DEF), if
/// it is a "change" of that stat.
pub open spec fn change_value(m: ModifierType, atk: bool) -> Option<i32> {
    match m {
        ModifierType::AtkChange(n) => if atk {
            Some(n)
        } else {
            None
        },
        ModifierType::DefChange(n) => if atk {
            None
        } else {
            Some(n)
        },
        _ => None,
    }
}

/// The stat's base: the last "set" among `mods`, or the printed value if
/// there is none.
pub open spec fn stat_base(printed: i32, mods: Seq<Modifier>, atk: bool) -> i32
    decreases mods.len(),
{
    if mods.len() == 0 {
        printed
    } else {
        match set_value(mods.last().mod_type, atk) {
            Some(n) => n,
            None => stat_base(printed, mods.drop_last(), atk),
        }
    }
}

/// The sum of every "change" among `mods`.
pub open spec fn change_sum(mods: Seq<Modifier>, atk: bool) -> int
    decreases mods.len(),
{
    if mods.len() == 0 {
        0
    } else {
        change_sum(mods.drop_last(), atk) + match change_value(mods.last().mod_type, atk) {
            Some(n) => n as int,
            None => 0,
        }
    }
}

/// Whether the fold stays in `i32` range: the base plus every running total
/// of the changes (in the order they were added).
pub open spec fn fold_fits(printed: i32, mods: Seq<Modifier>, atk: bool) -> bool {
    forall|k: int|
        0 <= k <= mods.len() ==> i32::MIN <= stat_base(printed, mods, atk) + #[trigger] change_sum(
            mods.take(k),
            atk,
        ) <= i32::MAX
}

/// A stat with its modifiers folded in: every "set" applies before every
/// "change" (a set establishes the value, the last one winning; changes stack
/// on top), floored at 0.
pub open spec fn stat_value(printed: i32, mods: Seq<Modifier>, atk: bool) -> i32 {
    let v = stat_base(printed, mods, atk) + change_sum(mods, atk);
    if v < 0 {
        0
    } else {
        v as i32
    }
}

/// Whether a modifier sets the stat (ATK when `atk`, else DEF).
pub open spec fn sets_of(atk: bool) -> spec_fn(Modifier) -> bool {
    |m: Modifier| set_value(m.mod_type, atk) is Some
}

/// Whether a modifier changes the stat (ATK when `atk`, else DEF).
pub open spec fn changes_of(atk: bool) -> spec_fn(Modifier) -> bool {
    |m: Modifier| change_value(m.mod_type, atk) is Some
}

/// Appending modifiers that set nothing keeps the base.
proof fn lemma_base_append(printed: i32, a: Seq<Modifier>, b: Seq<Modifier>, atk: bool)
    requires
        forall|i: int| 0 <= i < b.len() ==> set_value(#[trigger] b[i].mod_type, atk) is None,
    ensures
        stat_base(printed, a + b, atk) == stat_base(printed, a, atk),
    decreases b.len(),
{
    if b.len() > 0 {
        assert((a + b).drop_last() =~= a + b.drop_last());
        assert((a + b).last() == b[b.len() - 1]);
        lemma_base_append(printed, a, b.drop_last(), atk);
    } else {
        assert(a + b =~= a);
    }
}

/// The base is the base of the sets alone.
proof fn lemma_base_filter(printed: i32, mods: Seq<Modifier>, atk: bool)
    ensures
        stat_base(printed, mods, atk) == stat_base(printed, mods.filter(sets_of(atk)), atk),
    decreases mods.len(),
{
    reveal_with_fuel(Seq::filter, 1);
    if mods.len() > 0 {
        lemma_base_filter(printed, mods.drop_last(), atk);
        let f = mods.filter(sets_of(atk));
        if set_value(mods.last().mod_type, atk) is Some {
            assert(f.drop_last() =~= mods.drop_last().filter(sets_of(atk)));
        }
    }
}

/// The changes of a concatenation add up.
proof fn lemma_change_append(a: Seq<Modifier>, b: Seq<Modifier>, atk: bool)
    ensures
        change_sum(a + b, atk) == change_sum(a, atk) + change_sum(b, atk),
    decreases b.len(),
{
    if b.len() > 0 {
        assert((a + b).drop_last() =~= a + b.drop_last());
        assert((a + b).last() == b[b.len() - 1]);
        lemma_change_append(a, b.drop_last(), atk);
    } else {
        assert(a + b =~= a);
    }
}

/// The changes add up the same with only the changes kept, and to nothing
/// with only the sets kept.
proof fn lemma_change_filter(mods: Seq<Modifier>, atk: bool)
    ensures
        change_sum(mods.filter(changes_of(atk)), atk) == change_sum(mods, atk),
        change_sum(mods.filter(sets_of(atk)), atk) == 0,
    decreases mods.len(),
{
    reveal_with_fuel(Seq::filter, 1);
    if mods.len() > 0 {
        lemma_change_filter(mods.drop_last(), atk);
        let m = mods.last().mod_type;
        assert(set_value(m, atk) is Some ==> change_value(m, atk) is None);
        if change_value(m, atk) is Some {
            assert(mods.filter(changes_of(atk)).drop_last() =~= mods.drop_last().filter(changes_of(atk)));
        }
        if set_value(m, atk) is Some {
            assert(mods.filter(sets_of(atk)).drop_last() =~= mods.drop_last().filter(sets_of(atk)));
        }
    }
}

/// Sets apply before changes whatever order they were added in: a stat's
/// value is the value of its sets (in the order added) followed by its
/// changes (in the order added).
pub proof fn lemma_sets_before_changes(printed: i32, mods: Seq<Modifier>, atk: bool)
    ensures
        stat_value(printed, mods, atk) == stat_value(
            printed,
            mods.filter(sets_of(atk)) + mods.filter(changes_of(atk)),
            atk,
        ),
{
    let sets = mods.filter(sets_of(atk));
    let changes = mods.filter(changes_of(atk));
    assert forall|i: int| 0 <= i < changes.len() implies set_value(#[trigger] changes[i].mod_type, atk) is None by {
        mods.lemma_filter_pred(changes_of(atk), i);
    }
    lemma_base_append(printed, sets, changes, atk);
    lemma_base_filter(printed, mods, atk);
    lemma_change_append(sets, changes, atk);
    lemma_change_filter(mods, atk);
}

/// A folded stat that stays in range is between 0 and `i32::MAX`.
pub proof fn lemma_stat_in_range(printed: i32, mods: Seq<Modifier>, atk: bool)
    requires
        fold_fits(printed, mods, atk),
    ensures
        0 <= stat_value(printed, mods, atk) <= i32::MAX,
        stat_value(printed, mods, atk) == if stat_base(printed, mods, atk) + change_sum(mods, atk) < 0 {
            0
        } else {
            stat_base(printed, mods, atk) + change_sum(mods, atk)
        },
{
    assert(mods.take(mods.len() as int) =~= mods);
}

/// The stat folds without overflow whatever subset of its modifiers stays
/// in force: with any of them removed, every running total of the fold
/// (see [`fold_fits`]) stays within `i32`.
pub open spec fn small_stat(printed: i32, mods: Seq<Modifier>, atk: bool) -> bool {
    forall|keep: spec_fn(Modifier) -> bool| #[trigger] fold_fits(printed, mods.filter(keep), atk)
}

/// Both of a card's stats are small (see [`small_stat`]).
pub open spec fn small_card(c: Card) -> bool {
    small_stat(c.data.atk, c.modifiers@, true) && small_stat(c.data.def, c.modifiers@, false)
}

/// Keeping everything keeps the sequence.
proof fn lemma_filter_all<A>(s: Seq<A>)
    ensures
        s.filter(|a: A| true) == s,
    decreases s.len(),
{
    reveal_with_fuel(Seq::filter, 1);
    if s.len() > 0 {
        lemma_filter_all(s.drop_last());
        assert(s.drop_last().push(s.last()) =~= s);
    } else {
        assert(s.filter(|a: A| true) =~= s);
    }
}

/// Filtering twice is filtering by both.
proof fn lemma_filter_twice<A>(s: Seq<A>, p: spec_fn(A) -> bool, q: spec_fn(A) -> bool)
    ensures
        s.filter(p).filter(q) == s.filter(|a: A| p(a) && q(a)),
    decreases s.len(),
{
    reveal_with_fuel(Seq::filter, 1);
    if s.len() > 0 {
        lemma_filter_twice(s.drop_last(), p, q);
        if p(s.last()) {
            assert(s.filter(p).drop_last() =~= s.drop_last().filter(p));
        } else {
            assert(s.filter(p) =~= s.drop_last().filter(p));
        }
    } else {
        assert(s.filter(p).filter(q) =~= s.filter(|a: A| p(a) && q(a)));
    }
}

/// A small stat's fold stays in range.
pub proof fn lemma_small_fits(printed: i32, mods: Seq<Modifier>, atk: bool)
    requires
        small_stat(printed, mods, atk),
    ensures
        fold_fits(printed, mods, atk),
{
    lemma_filter_all(mods);
    assert(fold_fits(printed, mods.filter(|m: Modifier| true), atk));
}

/// Dropping modifiers keeps a small stat small.
pub proof fn lemma_filter_small(
    printed: i32,
    mods: Seq<Modifier>,
    atk: bool,
    keep: spec_fn(Modifier) -> bool,
)
    requires
        small_stat(printed, mods, atk),
    ensures
        small_stat(printed, mods.filter(keep), atk),
{
    assert forall|keep2: spec_fn(Modifier) -> bool| #[trigger] fold_fits(printed, mods.filter(keep).filter(keep2), atk) by {
        lemma_filter_twice(mods, keep, keep2);
        assert(fold_fits(printed, mods.filter(|m: Modifier| keep(m) && keep2(m)), atk));
    }
}

/// A card's ATK and DEF folds both stay in range.
pub open spec fn stats_fit(c: Card) -> bool {
    &&& fold_fits(c.data.atk, c.modifiers@, true)
    &&& fold_fits(c.data.def, c.modifiers@, false)
}

/// Two cards differ at most in their modifiers.
pub open spec fn same_but_modifiers(a: Card, b: Card) -> bool {
    &&& a.code == b.code
    &&& a.data == b.data
    &&& a.position == b.position
    &&& a.owner == b.owner
    &&& a.reason == b.reason
}

/// Whether a strip keeps `m`: by source, it drops `source`'s modifiers; by
/// id, it drops the one with `id`.
pub open spec fn keeps(m: Modifier, by_source: bool, source: CardId, id: u32) -> bool {
    if by_source {
        m.source != source
    } else {
        m.id != id
    }
}

/// A loss condition: no life points left, or decked out.
pub open spec fn has_lost(lp: u32, decked: bool) -> bool {
    lp == 0 || decked
}

/// A loser's reason: life points if they are gone, otherwise deck-out.
pub open spec fn loss_reason(lp: u32) -> WinReason {
    if lp == 0 {
        WinReason::LifePointsDepleted
    } else {
        WinReason::DeckOut
    }
}

/// The state after re-evaluating the win conditions from scratch: both
/// players lost is a draw (reason: player 0's); one player lost is a win for
/// the other (reason: the loser's); nobody losing leaves any decided result
/// untouched.
pub open spec fn checked(v: DuelView) -> DuelView {
    let p0 = has_lost(v.lps[0], v.decked_out[0]);
    let p1 = has_lost(v.lps[1], v.decked_out[1]);
    if p0 && p1 {
        DuelView { result: Some(Winner::Draw), win_reason: Some(loss_reason(v.lps[0])), ..v }
    } else if p0 {
        DuelView {
            result: Some(Winner::Player(1)),
            win_reason: Some(loss_reason(v.lps[0])),
            ..v
        }
    } else if p1 {
        DuelView {
            result: Some(Winner::Player(0)),
            win_reason: Some(loss_reason(v.lps[1])),
            ..v
        }
    } else {
        v
    }
}

/// `a - b`, or 0 if `b` is larger.
pub open spec fn sat_sub(a: u32, b: u32) -> u32 {
    if b <= a {
        (a - b) as u32
    } else {
        0
    }
}

/// The state after `player` loses `lp` life points (down to 0 at most) and
/// the win conditions are re-checked.
pub open spec fn after_lp_loss(v: DuelView, player: usize, lp: u32) -> DuelView {
    checked(DuelView { lps: v.lps.update(player as int, sat_sub(v.lps[player as int], lp)), ..v })
}

/// The table of `w` is that of `v` after `player` drew `drawn`, up to
/// `count` cards off the top of their deck into their hand, top card first.
pub open spec fn drew_piles(v: DuelView, w: DuelView, player: usize, count: int, drawn: Seq<CardId>) -> bool {
    v.field.drew(&w.field, player, count, drawn)
}

/// Drawing `a` cards and then `b` more moves the same cards, in the same
/// order, as drawing `a + b` at once.
pub proof fn lemma_draw_twice(
    v: DuelView,
    m: DuelView,
    w: DuelView,
    player: usize,
    a: int,
    b: int,
    first: Seq<CardId>,
    second: Seq<CardId>,
)
    requires
        player < 2,
        0 <= a,
        0 <= b,
        drew_piles(v, m, player, a, first),
        drew_piles(m, w, player, b, second),
    ensures
        drew_piles(v, w, player, a + b, first + second),
{
    Field::lemma_draw_twice(&v.field, &m.field, &w.field, player, a, b, first, second);
}

/// `w` is `v` after `player` drew `drawn`, up to `count` cards from the top
/// of their deck (see [`Duel::draw`]).
pub open spec fn drew_cards(v: DuelView, w: DuelView, player: usize, count: usize, drawn: Seq<CardId>) -> bool {
    let n = drawn.len();
    &&& drew_piles(v, w, player, count as int, drawn)
    &&& w == checked(
        DuelView {
            field: w.field,
            decked_out: if n < count {
                v.decked_out.update(player as int, true)
            } else {
                v.decked_out
            },
            ..v
        },
    )
}

/// `w` is `v` after `card` was Normal Summoned: moved to its controller's
/// Monster Zone, face-up in attack position (see [`Duel::summon`]).
pub open spec fn summoned(v: DuelView, w: DuelView, card: CardId) -> bool {
    &&& v.field.after_send(&w.field, card, Zone::MonsterZone)
    &&& w == (DuelView {
        cards: match v.card(card) {
            Some(c) => v.cards.insert(probe_key(card.ffi()), Card { position: Position::FaceUpAttack, ..c }),
            None => v.cards,
        },
        field: w.field,
        ..v
    })
}

/// A card with no modifiers folds its stats in range.
pub proof fn lemma_plain_card_small(c: Card)
    requires
        c.modifiers@.len() == 0,
    ensures
        small_card(c),
{
    assert forall|keep: spec_fn(Modifier) -> bool| #[trigger] fold_fits(c.data.atk, c.modifiers@.filter(keep), true)
        && fold_fits(c.data.def, c.modifiers@.filter(keep), false) by {
        reveal_with_fuel(Seq::filter, 1);
        assert(c.modifiers@.filter(keep) =~= Seq::<Modifier>::empty());
        assert forall|k: int| 0 <= k <= 0 implies i32::MIN <= stat_base(c.data.atk, Seq::<Modifier>::empty(), true)
            + #[trigger] change_sum(Seq::<Modifier>::empty().take(k), true) <= i32::MAX by {
            assert(Seq::<Modifier>::empty().take(k) =~= Seq::<Modifier>::empty());
        }
        assert forall|k: int| 0 <= k <= 0 implies i32::MIN <= stat_base(c.data.def, Seq::<Modifier>::empty(), false)
            + #[trigger] change_sum(Seq::<Modifier>::empty().take(k), false) <= i32::MAX by {
            assert(Seq::<Modifier>::empty().take(k) =~= Seq::<Modifier>::empty());
        }
    }
}

/// The id `key` (in the arena's form) was handed out and names no card now.
pub open spec fn retired(v: DuelView, key: u64) -> bool {
    v.issued.contains(key) && !v.cards.contains_key(key)
}

/// Ids are never revived: an id that was removed stays dead when a card is
/// added (see [`Duel::add_card`]), and the added card gets another id.
pub proof fn lemma_retired_stays_retired(v: DuelView, w: DuelView, key: u64, added: u64, card: Card)
    requires
        retired(v, key),
        !v.issued.contains(added),
        w.cards == v.cards.insert(added, card),
        w.issued == v.issued.insert(added),
    ensures
        added != key,
        retired(w, key),
{
}

impl Duel {
    // ===== Card arena =======================================================

    /// Put `card` into the arena under a fresh id.
    pub fn add_card(&mut self, card: Card) -> (id: CardId)
        requires
            old(self).wf(),
            old(self)@.slots < u32::MAX - 1,
        ensures
            final(self).wf(),
            old(self)@.card(id) is None,
            final(self)@.card(id) == Some(card),
            final(self)@ == (DuelView {
                cards: old(self)@.cards.insert(id.ffi(), card),
                slots: final(self)@.slots,
                issued: old(self)@.issued.insert(id.ffi()),
                added: if old(self)@.added < u64::MAX { old(self)@.added + 1 } else { old(self)@.added },
                ..old(self)@
            }),
            !old(self)@.issued.contains(id.ffi()),
            probe_key(id.ffi()) == id.ffi(),
            final(self)@.slots <= old(self)@.slots + 1,
            Duel::sound(old(self)@) && small_card(card) ==> Duel::sound(final(self)@),
    {
        let f = arena_insert(&mut self.cards, card);
        if self.added < u64::MAX {
            self.added = self.added + 1;
        }
        let id = CardId::from_ffi(f);
        id
    }

    /// Whether another card can be added: true while fewer than
    /// `u32::MAX - 1` cards were ever added, which leaves the arena room to
    /// open a slot (it may say no where slot reuse would still leave room).
    pub fn has_room(&self) -> (r: bool)
        requires
            self.wf(),
        ensures
            r == (self@.added < u32::MAX - 1),
            r ==> self@.slots < u32::MAX - 1,
    {
        self.added < 0xffff_fffe
    }

    /// Make a card of `code` with the stats its loaded script declared; with
    /// an unknown code the stats are blank.
    pub fn make_card(&self, code: u32) -> (c: Card)
        ensures
            match self@.card_data.get(code) {
                Some(d) => c.is_fresh(code, d),
                None => c.code == code && c.data.is_blank() && c.position == Position::FaceUpAttack
                    && c.owner == 0 && c.reason == 0 && c.modifiers@.len() == 0,
            },
    {
        match self.card_data.get(&code) {
            Some(d) => Card::with_data(code, d.clone()),
            None => Card::new(code),
        }
    }

    /// The card `id` names, if it is still in the arena.
    pub fn get_card(&self, id: CardId) -> (c: Option<&Card>)
        ensures
            match c {
                Some(c) => self@.card(id) == Some(*c),
                None => self@.card(id) is None,
            },
    {
        arena_get(&self.cards, id.to_ffi())
    }

    /// Take the card `id` names out of the arena; `None` if it is not there.
    /// A removed id stays handed out (see [`DuelView::issued`]) unless its
    /// generation was `u32::MAX`, so no later card gets it.
    pub fn remove_card(&mut self, id: CardId) -> (c: Option<Card>)
        requires
            old(self).wf(),
        ensures
            final(self).wf(),
            c == old(self)@.card(id),
            final(self)@.card(id) is None,
            final(self)@ == (DuelView {
                cards: old(self)@.cards.remove(probe_key(id.ffi())),
                issued: final(self)@.issued,
                ..old(self)@
            }),
            c is None || probe_key(id.ffi()) < 0xffff_ffff_0000_0000u64 ==> final(self)@.issued
                == old(self)@.issued,
            c is Some && probe_key(id.ffi()) < 0xffff_ffff_0000_0000u64 ==> retired(
                final(self)@,
                probe_key(id.ffi()),
            ),
    {
        arena_remove(&mut self.cards, id.to_ffi())
    }

    /// The printed record of a card instance.
    pub fn card_data(&self, card: CardId) -> (d: Option<&CardData>)
        ensures
            match d {
                Some(d) => self@.card(card) is Some && *d == self@.card(card)->0.data,
                None => self@.card(card) is None,
            },
    {
        match self.get_card(card) {
            Some(c) => Some(&c.data),
            None => None,
        }
    }

    /// Fold `mods` into `printed`: every "set" first (the last one wins),
    /// then every "change" in insertion order; floored at 0.
    fn fold_stat(printed: i32, mods: &Vec<Modifier>, atk: bool) -> (v: i32)
        requires
            fold_fits(printed, mods@, atk),
        ensures
            v == stat_value(printed, mods@, atk),
    {
        let mut v: i32 = printed;
        let mut i: usize = 0;
        while i < mods.len()
            invariant
                i <= mods@.len(),
                v == stat_base(printed, mods@.take(i as int), atk),
            decreases mods@.len() - i,
        {
            assert(mods@.take(i as int + 1).drop_last() =~= mods@.take(i as int));
            match mods[i].mod_type {
                ModifierType::SetAtk(n) => {
                    if atk {
                        v = n;
                    }
                },
                ModifierType::SetDef(n) => {
                    if !atk {
                        v = n;
                    }
                },
                _ => {},
            }
            i = i + 1;
        }
        assert(mods@.take(i as int) =~= mods@);
        let ghost base = v;
        let mut j: usize = 0;
        while j < mods.len()
            invariant
                j <= mods@.len(),
                base == stat_base(printed, mods@, atk),
                fold_fits(printed, mods@, atk),
                v == base + change_sum(mods@.take(j as int), atk),
            decreases mods@.len() - j,
        {
            assert(mods@.take(j as int + 1).drop_last() =~= mods@.take(j as int));
            assert(i32::MIN <= base + change_sum(mods@.take(j as int + 1), atk) <= i32::MAX);
            match mods[j].mod_type {
                ModifierType::AtkChange(n) => {
                    if atk {
                        v = v + n;
                    }
                },
                ModifierType::DefChange(n) => {
                    if !atk {
                        v = v + n;
                    }
                },
                _ => {},
            }
            j = j + 1;
        }
        assert(mods@.take(j as int) =~= mods@);
        if v < 0 {
            0
        } else {
            v
        }
    }

    /// A monster's ATK: its printed value with every ATK modifier folded in
    /// (sets before changes, ties in insertion order), floored at 0.
    pub fn atk_of(&self, card: CardId) -> (a: Option<i32>)
        requires
            self@.card(card) is Some ==> fold_fits(
                self@.card(card)->0.data.atk,
                self@.card(card)->0.modifiers@,
                true,
            ),
        ensures
            a == match self@.card(card) {
                Some(c) => Some(stat_value(c.data.atk, c.modifiers@, true)),
                None => None::<i32>,
            },
            a matches Some(x) ==> x >= 0,
    {
        proof {
            if self@.card(card) is Some {
                let c = self@.card(card)->0;
                lemma_stat_in_range(c.data.atk, c.modifiers@, true);
            }
        }
        match self.get_card(card) {
            Some(c) => Some(Duel::fold_stat(c.data.atk, &c.modifiers, true)),
            None => None,
        }
    }

    /// A monster's DEF: its printed value with every DEF modifier folded in
    /// (sets before changes, ties in insertion order), floored at 0.
    pub fn def_of(&self, card: CardId) -> (d: Option<i32>)
        requires
            self@.card(card) is Some ==> fold_fits(
                self@.card(card)->0.data.def,
                self@.card(card)->0.modifiers@,
                false,
            ),
        ensures
            d == match self@.card(card) {
                Some(c) => Some(stat_value(c.data.def, c.modifiers@, false)),
                None => None::<i32>,
            },
            d matches Some(x) ==> x >= 0,
    {
        proof {
            if self@.card(card) is Some {
                let c = self@.card(card)->0;
                lemma_stat_in_range(c.data.def, c.modifiers@, false);
            }
        }
        match self.get_card(card) {
            Some(c) => Some(Duel::fold_stat(c.data.def, &c.modifiers, false)),
            None => None,
        }
    }

    /// A monster's level; `None` if the card does not exist or has no level.
    pub fn level_of(&self, card: CardId) -> (l: Option<u32>)
        ensures
            l == match self@.card(card) {
                Some(c) => c.data.level,
                None => None::<u32>,
            },
    {
        match self.get_card(card) {
            Some(c) => c.data.level,
            None => None,
        }
    }

    // ===== Deck & hand ======================================================

    /// Create a card and put it on the bottom of `player`'s deck. The card starts out
    /// owned and controlled by that player.
    pub fn add_to_deck(&mut self, player: usize, card: Card) -> (id: CardId)
        requires
            old(self).wf(),
            old(self)@.slots < u32::MAX - 1,
            player < 2,
        ensures
            final(self).wf(),
            old(self)@.card(id) is None,
            final(self)@.card(id) == Some(Card { owner: player, ..card }),
            final(self)@.cards == old(self)@.cards.insert(id.ffi(), Card { owner: player, ..card }),
            final(self)@.field.locs() == old(self)@.field.locs().insert(id.key, (player, Zone::Deck)),
            final(self)@.field.deck(player as int) == seq![id] + old(self)@.field.deck(player as int),
            final(self)@.field.deck(1 - player) == old(self)@.field.deck(1 - player),
            final(self)@.field.hand(0) == old(self)@.field.hand(0),
            final(self)@.field.hand(1) == old(self)@.field.hand(1),
            final(self)@ == (DuelView {
                cards: final(self)@.cards,
                slots: final(self)@.slots,
                issued: old(self)@.issued.insert(id.ffi()),
                added: if old(self)@.added < u64::MAX { old(self)@.added + 1 } else { old(self)@.added },
                field: final(self)@.field,
                ..old(self)@
            }),
            !old(self)@.issued.contains(id.ffi()),
            probe_key(id.ffi()) == id.ffi(),
            final(self)@.slots <= old(self)@.slots + 1,
            Duel::sound(old(self)@) && small_card(card) ==> Duel::sound(final(self)@),
    {
        let mut card = card;
        card.owner = player;
        let id = self.add_card(card);
        self.field.add_to_deck(player, id);
        id
    }

    /// Create a card and put it into `player`'s hand. The card starts out
    /// owned and controlled by that player.
    pub fn add_to_hand(&mut self, player: usize, card: Card) -> (id: CardId)
        requires
            old(self).wf(),
            old(self)@.slots < u32::MAX - 1,
            player < 2,
        ensures
            final(self).wf(),
            old(self)@.card(id) is None,
            final(self)@.card(id) == Some(Card { owner: player, ..card }),
            final(self)@.cards == old(self)@.cards.insert(id.ffi(), Card { owner: player, ..card }),
            final(self)@.field.locs() == old(self)@.field.locs().insert(id.key, (player, Zone::Hand)),
            final(self)@.field.hand(player as int) == old(self)@.field.hand(player as int).push(id),
            final(self)@.field.hand(1 - player) == old(self)@.field.hand(1 - player),
            final(self)@.field.deck(0) == old(self)@.field.deck(0),
            final(self)@.field.deck(1) == old(self)@.field.deck(1),
            final(self)@ == (DuelView {
                cards: final(self)@.cards,
                slots: final(self)@.slots,
                issued: old(self)@.issued.insert(id.ffi()),
                added: if old(self)@.added < u64::MAX { old(self)@.added + 1 } else { old(self)@.added },
                field: final(self)@.field,
                ..old(self)@
            }),
            !old(self)@.issued.contains(id.ffi()),
            probe_key(id.ffi()) == id.ffi(),
            final(self)@.slots <= old(self)@.slots + 1,
            Duel::sound(old(self)@) && small_card(card) ==> Duel::sound(final(self)@),
    {
        let mut card = card;
        card.owner = player;
        let id = self.add_card(card);
        self.field.add_to_hand(player, id);
        id
    }

    /// Draw `count` cards off the top of `player`'s deck into their hand. If
    /// the deck can't supply them all, that player decks out (a loss); the
    /// win conditions are re-checked either way.
    pub fn draw(&mut self, player: usize, count: usize) -> (drawn: Vec<CardId>)
        requires
            old(self).wf(),
            player < 2,
        ensures
            final(self).wf(),
            drew_cards(old(self)@, final(self)@, player, count, drawn@),
            ({
                let d = old(self)@.field.deck(player as int);
                let n = drawn@.len();
                &&& n == crate::field::min_count(count as int, d.len() as int)
                &&& forall|i: int| 0 <= i < n ==> drawn@[i] == d[d.len() - 1 - i]
                &&& final(self)@.field.deck(player as int) == d.take(d.len() - n)
            }),
            final(self)@.field.hand(player as int) == old(self)@.field.hand(player as int)
                + drawn@,
            final(self)@.field.locs() == place_all(
                old(self)@.field.locs(),
                drawn@,
                (player, Zone::Hand),
            ),
            final(self)@.field.deck(1 - player) == old(self)@.field.deck(1 - player),
            final(self)@.field.hand(1 - player) == old(self)@.field.hand(1 - player),
            final(self)@ == checked(
                DuelView {
                    field: final(self)@.field,
                    decked_out: if drawn@.len() < count {
                        old(self)@.decked_out.update(player as int, true)
                    } else {
                        old(self)@.decked_out
                    },
                    ..old(self)@
                },
            ),
            old(self)@.field.piles_match() ==> final(self)@.field.piles_match(),
    {
        let drawn = self.field.draw(player, count);
        if drawn.len() < count {
            self.decked_out[player] = true;
        }
        self.check_win();
        drawn
    }

    /// How many cards are in `player`'s deck.
    pub fn deck_count(&self, player: usize) -> (n: usize)
        requires
            player < 2,
        ensures
            n == self@.field.deck(player as int).len(),
    {
        self.field.deck_count(player)
    }

    /// How many cards are in `player`'s hand.
    pub fn hand_count(&self, player: usize) -> (n: usize)
        requires
            player < 2,
        ensures
            n == self@.field.hand(player as int).len(),
    {
        self.field.hand_count(player)
    }

    /// The card at a given slot in `player`'s hand, if any.
    pub fn hand_card(&self, player: usize, index: usize) -> (c: Option<CardId>)
        requires
            player < 2,
        ensures
            c == if index < self@.field.hand(player as int).len() {
                Some(self@.field.hand(player as int)[index as int])
            } else {
                None::<CardId>
            },
    {
        self.field.hand_card(player, index)
    }

    /// The cards in `player`'s Monster Zone, in id order.
    pub fn monster_zone(&self, player: usize) -> (r: Vec<CardId>)
        requires
            self.wf(),
        ensures
            r@ == self@.field.cards_at(player, Zone::MonsterZone),
    {
        self.field.monster_zone(player)
    }

    /// The cards in `player`'s Spell & Trap Zone, in id order.
    pub fn spell_trap_zone(&self, player: usize) -> (r: Vec<CardId>)
        requires
            self.wf(),
        ensures
            r@ == self@.field.cards_at(player, Zone::SpellTrapZone),
    {
        self.field.cards_in(player, Zone::SpellTrapZone)
    }

    /// The cards in `player`'s Graveyard, in id order.
    pub fn graveyard(&self, player: usize) -> (r: Vec<CardId>)
        requires
            self.wf(),
        ensures
            r@ == self@.field.cards_at(player, Zone::GY),
    {
        self.field.cards_in(player, Zone::GY)
    }

    // ===== Zones & movement =================================================

    /// Record `card` as being in `player`'s `zone` (the piles are untouched).
    pub fn place(&mut self, player: usize, card: CardId, zone: Zone)
        requires
            old(self).wf(),
        ensures
            final(self).wf(),
            final(self)@.field.locs() == old(self)@.field.locs().insert(card.key, (player, zone)),
            final(self)@.field.same_piles(&old(self)@.field),
            final(self)@ == (DuelView { field: final(self)@.field, ..old(self)@ }),
            Duel::sound(old(self)@) && player < 2 ==> Duel::sound(final(self)@),
    {
        self.field.place(player, card, zone);
    }

    /// The kind of zone `card` sits in, if it has been placed.
    pub fn zone_of(&self, card: CardId) -> (z: Option<Zone>)
        requires
            self.wf(),
        ensures
            z == match self@.location(card) {
                Some(l) => Some(l.1),
                None => None::<Zone>,
            },
    {
        self.field.zone_of(card)
    }

    /// Who currently controls `card`: the player whose zone it sits in
    /// (player 0 if unplaced). May differ from its owner.
    pub fn controller_of(&self, card: CardId) -> (p: usize)
        requires
            self.wf(),
        ensures
            p == match self@.location(card) {
                Some(l) => l.0,
                None => 0,
            },
    {
        match self.field.controller_of(card) {
            Some(p) => p,
            None => 0,
        }
    }

    /// Who owns `card` (player 0 if it is not in the arena). Unlike control,
    /// ownership never changes.
    pub fn owner_of(&self, card: CardId) -> (p: usize)
        ensures
            p == match self@.card(card) {
                Some(c) => c.owner,
                None => 0,
            },
    {
        match self.get_card(card) {
            Some(c) => c.owner,
            None => 0,
        }
    }

    /// Move `card` to `zone` (see [`Field::after_send`]); it stays alive in
    /// the arena. A plain move: nothing is recorded on the card.
    pub fn send_to(&mut self, card: CardId, zone: Zone)
        requires
            old(self).wf(),
            old(self)@.field.can_send(card, zone),
        ensures
            final(self).wf(),
            old(self)@.field.after_send(&final(self)@.field, card, zone),
            final(self)@ == (DuelView { field: final(self)@.field, ..old(self)@ }),
            old(self)@.field.piles_match() ==> final(self)@.field.piles_match(),
    {
        self.field.send_to(card, zone);
    }

    /// Stamp a position onto the card instance (callers gate it).
    fn set_position(&mut self, card: CardId, pos: Position)
        requires
            old(self).wf(),
        ensures
            final(self).wf(),
            final(self)@ == (DuelView {
                cards: match old(self)@.card(card) {
                    Some(c) => old(self)@.cards.insert(probe_key(card.ffi()), Card { position: pos, ..c }),
                    None => old(self)@.cards,
                },
                ..old(self)@
            }),
    {
        proof {
            crate::arena::lemma_probe_idempotent(card.ffi());
        }
        match arena_get_mut(&mut self.cards, card.to_ffi()) {
            Some(c) => {
                c.position = pos;
            },
            None => {},
        }
    }

    /// Destroy `card` for `reason`, sending it to the GY. Unlike a bare
    /// `send_to` this records why on the card (`REASON_DESTROY | reason`) and
    /// raises `EVENT_DESTROYED`, plus `EVENT_BATTLE_DESTROYED` when the reason
    /// includes `REASON_BATTLE`.
    pub fn destroy(&mut self, card: CardId, reason: Reason)
        requires
            old(self).wf(),
            old(self)@.field.pile_in_range(card),
        ensures
            final(self).wf(),
            Duel::destroy_step(old(self)@, final(self)@, card, reason),
            old(self)@.field.players_in_range() ==> final(self)@.field.players_in_range(),
            final(self)@.cards == match old(self)@.card(card) {
                Some(c) => old(self)@.cards.insert(
                    probe_key(card.ffi()),
                    Card { reason: REASON_DESTROY | reason, ..c },
                ),
                None => old(self)@.cards,
            },
            old(self)@.field.after_send(&final(self)@.field, card, Zone::GY),
            Duel::raised(
                old(self)@.events,
                final(self)@.events,
                card,
                REASON_DESTROY | reason,
                if reason & REASON_BATTLE != 0 {
                    seq![EVENT_DESTROYED, EVENT_BATTLE_DESTROYED]
                } else {
                    seq![EVENT_DESTROYED]
                },
            ),
            final(self)@ == (DuelView {
                cards: final(self)@.cards,
                field: final(self)@.field,
                events: final(self)@.events,
                ..old(self)@
            }),
    {
        proof {
            crate::arena::lemma_probe_idempotent(card.ffi());
        }
        match arena_get_mut(&mut self.cards, card.to_ffi()) {
            Some(c) => {
                c.reason = REASON_DESTROY | reason;
            },
            None => {},
        }
        self.field.send_to(card, Zone::GY);
        let ghost e0 = self.events@;
        self.events.push_back(
            DuelEvent {
                code: EVENT_DESTROYED,
                card,
                reason: REASON_DESTROY | reason,
                details: BTreeMap::new(),
            },
        );
        if reason & REASON_BATTLE != 0 {
            self.events.push_back(
                DuelEvent {
                    code: EVENT_BATTLE_DESTROYED,
                    card,
                    reason: REASON_DESTROY | reason,
                    details: BTreeMap::new(),
                },
            );
        }
        proof {
            let codes = if reason & REASON_BATTLE != 0 {
                seq![EVENT_DESTROYED, EVENT_BATTLE_DESTROYED]
            } else {
                seq![EVENT_DESTROYED]
            };
            assert(self.events@.take(e0.len() as int) =~= e0);
            assert forall|i: int| 0 <= i < codes.len() implies {
                &&& (#[trigger] self.events@[e0.len() + i]).code == codes[i]
                &&& self.events@[e0.len() + i].card == card
                &&& self.events@[e0.len() + i].reason == REASON_DESTROY | reason
                &&& self.events@[e0.len() + i].details@ == Map::<
                    String,
                    crate::event::EventDetail,
                >::empty()
            } by {}
            if old(self)@.field.players_in_range() {
                Field::lemma_send_keeps_players(&old(self)@.field, &self@.field, card, Zone::GY);
            }
        }
    }

    /// `w` is `v` after `card` was destroyed for `reason` (see
    /// [`Duel::destroy`]).
    pub open spec fn destroy_step(v: DuelView, w: DuelView, card: CardId, reason: Reason) -> bool {
        &&& w.cards == match v.card(card) {
            Some(c) => v.cards.insert(probe_key(card.ffi()), Card { reason: REASON_DESTROY | reason, ..c }),
            None => v.cards,
        }
        &&& v.field.after_send(&w.field, card, Zone::GY)
        &&& Duel::raised(
            v.events,
            w.events,
            card,
            REASON_DESTROY | reason,
            if reason & REASON_BATTLE != 0 {
                seq![EVENT_DESTROYED, EVENT_BATTLE_DESTROYED]
            } else {
                seq![EVENT_DESTROYED]
            },
        )
        &&& w == (DuelView { cards: w.cards, field: w.field, events: w.events, ..v })
    }

    /// `new` is `old` with one event per code of `codes` appended, in order,
    /// each about `card` for `reason` with no details.
    pub open spec fn raised(
        old: Seq<DuelEvent>,
        new: Seq<DuelEvent>,
        card: CardId,
        reason: Reason,
        codes: Seq<u32>,
    ) -> bool {
        &&& new.len() == old.len() + codes.len()
        &&& new.take(old.len() as int) == old
        &&& forall|i: int|
            0 <= i < codes.len() ==> {
                &&& (#[trigger] new[old.len() + i]).code == codes[i]
                &&& new[old.len() + i].card == card
                &&& new[old.len() + i].reason == reason
                &&& new[old.len() + i].details@ == Map::<String, crate::event::EventDetail>::empty()
            }
    }

    /// Put a card onto the field as a monster, face-up in attack position. A
    /// primitive shared by the menu and card effects: the caller decides
    /// what is legal.
    pub fn summon(&mut self, card: CardId)
        requires
            old(self).wf(),
            old(self)@.field.pile_in_range(card),
        ensures
            final(self).wf(),
            summoned(old(self)@, final(self)@, card),
            old(self)@.field.after_send(&final(self)@.field, card, Zone::MonsterZone),
            final(self)@ == (DuelView {
                cards: match old(self)@.card(card) {
                    Some(c) => old(self)@.cards.insert(
                        probe_key(card.ffi()),
                        Card { position: Position::FaceUpAttack, ..c },
                    ),
                    None => old(self)@.cards,
                },
                field: final(self)@.field,
                ..old(self)@
            }),
    {
        self.field.send_to(card, Zone::MonsterZone);
        self.set_position(card, Position::FaceUpAttack);
    }

    /// Set a monster face-down in defense position. A primitive like
    /// `summon`: the caller enforces legality.
    pub fn set_monster(&mut self, card: CardId)
        requires
            old(self).wf(),
            old(self)@.field.pile_in_range(card),
        ensures
            final(self).wf(),
            old(self)@.field.after_send(&final(self)@.field, card, Zone::MonsterZone),
            final(self)@ == (DuelView {
                cards: match old(self)@.card(card) {
                    Some(c) => old(self)@.cards.insert(
                        probe_key(card.ffi()),
                        Card { position: Position::FaceDownDefense, ..c },
                    ),
                    None => old(self)@.cards,
                },
                field: final(self)@.field,
                ..old(self)@
            }),
    {
        self.field.send_to(card, Zone::MonsterZone);
        self.set_position(card, Position::FaceDownDefense);
    }

    /// Positions follow the moves: a live card summoned is face-up in attack
    /// position; set, face-down in defense position; sent off the field, it
    /// has no position.
    pub proof fn lemma_position_after_move(v: DuelView, w: DuelView, card: CardId, pos: Position, zone: Zone)
        requires
            v.card(card) is Some,
            v.field.after_send(&w.field, card, zone),
            w.cards == v.cards.insert(probe_key(card.ffi()), Card { position: pos, ..v.card(card)->0 }),
        ensures
            zone == Zone::MonsterZone ==> Duel::position(w, card) == Some(pos),
            zone != Zone::MonsterZone ==> Duel::position(w, card) is None,
    {
        assert(w.field.locs().contains_key(card.key));
    }

    /// A card sent somewhere other than a Monster Zone has no position.
    pub proof fn lemma_no_position_off_field(v: DuelView, w: DuelView, card: CardId, zone: Zone)
        requires
            v.field.after_send(&w.field, card, zone),
            zone != Zone::MonsterZone,
        ensures
            Duel::position(w, card) is None,
    {
        assert(w.field.locs().contains_key(card.key));
    }

    /// The battle-damage gate flips with the modifier: granting a player
    /// "no battle damage" shuts it; stripping a source's modifiers opens it
    /// again when no other "no battle damage" of theirs remains.
    pub proof fn lemma_damage_gate(v: DuelView, w: DuelView, player: usize, m: Modifier, source: CardId)
        requires
            player < 2,
            v.player_mods.len() == 2,
        ensures
            m.mod_type == ModifierType::NoBattleDamage && w.player_mods == v.player_mods.update(
                player as int,
                v.player_mods[player as int].push(m),
            ) ==> !Duel::takes_battle_damage(w, player),
            w.player_mods == v.player_mods.map_values(|s: Seq<Modifier>| s.filter(|x: Modifier| x.source != source))
                ==> (Duel::takes_battle_damage(w, player) <==> forall|j: int|
                0 <= j < v.player_mods[player as int].len() && v.player_mods[player as int][j].source != source
                    ==> #[trigger] v.player_mods[player as int][j].mod_type != ModifierType::NoBattleDamage),
    {
        if m.mod_type == ModifierType::NoBattleDamage && w.player_mods == v.player_mods.update(
            player as int,
            v.player_mods[player as int].push(m),
        ) {
            let l = v.player_mods[player as int].len() as int;
            assert(w.player_mods[player as int][l] == m);
        }
        if w.player_mods == v.player_mods.map_values(|s: Seq<Modifier>| s.filter(|x: Modifier| x.source != source)) {
            let ms = v.player_mods[player as int];
            let keep = |x: Modifier| x.source != source;
            let f = ms.filter(keep);
            assert(w.player_mods[player as int] == f);
            if Duel::takes_battle_damage(w, player) {
                assert forall|j: int|
                    0 <= j < ms.len() && ms[j].source != source implies #[trigger] ms[j].mod_type
                    != ModifierType::NoBattleDamage by {
                    ms.lemma_filter_contains(keep, j);
                    let k = choose|k: int| 0 <= k < f.len() && f[k] == ms[j];
                    assert(f[k].mod_type != ModifierType::NoBattleDamage);
                }
            }
            if forall|j: int|
                0 <= j < ms.len() && ms[j].source != source ==> #[trigger] ms[j].mod_type
                    != ModifierType::NoBattleDamage {
                assert forall|j: int| 0 <= j < f.len() implies (#[trigger] f[j]).mod_type
                    != ModifierType::NoBattleDamage by {
                    assert(f.contains(f[j]));
                    ms.lemma_filter_contains_rev(keep, f[j]);
                    let i = choose|i: int| 0 <= i < ms.len() && ms[i] == f[j];
                    assert(ms[i].source != source);
                }
            }
        }
    }

    /// A card's battle position, which it has only while in a Monster Zone.
    pub open spec fn position(v: DuelView, card: CardId) -> Option<Position> {
        match v.location(card) {
            Some(l) => if l.1 == Zone::MonsterZone {
                match v.card(card) {
                    Some(c) => Some(c.position),
                    None => None,
                }
            } else {
                None
            },
            None => None,
        }
    }

    /// A monster's current battle position: `None` unless it's in a Monster
    /// Zone (and in the arena).
    pub fn position_of(&self, card: CardId) -> (p: Option<Position>)
        requires
            self.wf(),
        ensures
            p == Duel::position(self@, card),
    {
        match self.zone_of(card) {
            Some(Zone::MonsterZone) => match self.get_card(card) {
                Some(c) => Some(c.position),
                None => None,
            },
            _ => None,
        }
    }

    /// Change a monster's position (flip it face-up, or switch attack and
    /// defense). A no-op unless the card is in a Monster Zone.
    pub fn change_position(&mut self, card: CardId, pos: Position)
        requires
            old(self).wf(),
        ensures
            final(self).wf(),
            final(self)@ == if old(self)@.location(card) matches Some(l) && l.1 == Zone::MonsterZone {
                DuelView {
                    cards: match old(self)@.card(card) {
                        Some(c) => old(self)@.cards.insert(
                            probe_key(card.ffi()),
                            Card { position: pos, ..c },
                        ),
                        None => old(self)@.cards,
                    },
                    ..old(self)@
                }
            } else {
                old(self)@
            },
    {
        match self.zone_of(card) {
            Some(Zone::MonsterZone) => self.set_position(card, pos),
            _ => {},
        }
    }

    /// Whether `player` may still Normal Summon (or Set) this turn: once per
    /// turn.
    pub fn can_normal_summon(&self, player: usize) -> (b: bool)
        requires
            self.wf(),
            player < 2,
        ensures
            b == (self@.normal_summons[player as int] < 1),
    {
        self.normal_summons[player] < 1
    }

    /// Record that `player` used a Normal Summon this turn.
    pub fn record_normal_summon(&mut self, player: usize)
        requires
            old(self).wf(),
            player < 2,
            old(self)@.normal_summons[player as int] < u8::MAX,
        ensures
            final(self).wf(),
            final(self)@ == (DuelView {
                normal_summons: old(self)@.normal_summons.update(
                    player as int,
                    (old(self)@.normal_summons[player as int] + 1) as u8,
                ),
                ..old(self)@
            }),
    {
        self.normal_summons[player] = self.normal_summons[player] + 1;
    }

    /// Reset the Normal Summon counters (at the start of each turn).
    pub(crate) fn reset_normal_summons(&mut self)
        requires
            old(self).wf(),
        ensures
            final(self).wf(),
            final(self)@ == (DuelView { normal_summons: seq![0u8, 0u8], ..old(self)@ }),
    {
        self.normal_summons = [0, 0];
        assert(self@.normal_summons =~= seq![0u8, 0u8]);
    }

    /// Clear the per-turn attack record (at the start of each turn).
    pub(crate) fn reset_attacks(&mut self)
        requires
            old(self).wf(),
        ensures
            final(self).wf(),
            final(self)@ == (DuelView { attacked: Set::<u64>::empty(), ..old(self)@ }),
    {
        self.attacked_this_turn.clear();
    }

    /// Set a card face-down in the Spell & Trap Zone; works from any zone.
    pub fn set_spell_trap(&mut self, card: CardId)
        requires
            old(self).wf(),
            old(self)@.field.pile_in_range(card),
        ensures
            final(self).wf(),
            old(self)@.field.after_send(&final(self)@.field, card, Zone::SpellTrapZone),
            final(self)@ == (DuelView { field: final(self)@.field, ..old(self)@ }),
    {
        self.field.send_to(card, Zone::SpellTrapZone);
    }

    // ===== Life points & win conditions =====================================

    /// `player`'s life points.
    pub fn life_points(&self, player: usize) -> (lp: u32)
        requires
            self.wf(),
            player < 2,
        ensures
            lp == self@.lps[player as int],
    {
        self.lps[player]
    }

    /// `player` pays `lp` life points (down to 0 at most); the win
    /// conditions are re-checked.
    pub fn pay_lp(&mut self, player: usize, lp: u32)
        requires
            old(self).wf(),
            player < 2,
        ensures
            final(self).wf(),
            final(self)@ == after_lp_loss(old(self)@, player, lp),
    {
        self.lps[player] = self.lps[player].saturating_sub(lp);
        self.check_win();
    }

    /// `player` takes `lp` damage (down to 0 at most); the win conditions are
    /// re-checked.
    pub fn deal_damage(&mut self, player: usize, lp: u32)
        requires
            old(self).wf(),
            player < 2,
        ensures
            final(self).wf(),
            final(self)@ == after_lp_loss(old(self)@, player, lp),
    {
        self.lps[player] = self.lps[player].saturating_sub(lp);
        self.check_win();
    }

    /// Who won, if the duel is decided.
    pub fn result(&self) -> (r: Option<Winner>)
        ensures
            r == self@.result,
    {
        self.result
    }

    /// Why the duel was decided, if it is.
    pub fn win_reason(&self) -> (r: Option<WinReason>)
        ensures
            r == self@.win_reason,
    {
        self.win_reason
    }

    /// Re-evaluate the win conditions from scratch (see [`checked`]).
    fn check_win(&mut self)
        requires
            old(self).wf(),
        ensures
            final(self).wf(),
            final(self)@ == checked(old(self)@),
    {
        let p0_lost = self.lps[PLAYER_0] == 0 || self.decked_out[PLAYER_0];
        let p1_lost = self.lps[PLAYER_1] == 0 || self.decked_out[PLAYER_1];
        let p0_reason = if self.lps[PLAYER_0] == 0 {
            WinReason::LifePointsDepleted
        } else {
            WinReason::DeckOut
        };
        let p1_reason = if self.lps[PLAYER_1] == 0 {
            WinReason::LifePointsDepleted
        } else {
            WinReason::DeckOut
        };
        if p0_lost && p1_lost {
            self.result = Some(Winner::Draw);
            self.win_reason = Some(p0_reason);
        } else if p0_lost {
            self.result = Some(Winner::Player(PLAYER_1));
            self.win_reason = Some(p0_reason);
        } else if p1_lost {
            self.result = Some(Winner::Player(PLAYER_0));
            self.win_reason = Some(p1_reason);
        }
    }

    // ===== Modifiers ========================================================

    /// Hand out the next unique modifier id (the counter lives in the effect
    /// context, so scripts and the engine draw from the same sequence).
    fn next_modifier_id(&mut self) -> (id: u32)
        requires
            old(self).wf(),
            old(self)@.ctx.next_modifier_id < u32::MAX,
        ensures
            final(self).wf(),
            id == old(self)@.ctx.next_modifier_id + 1,
            final(self)@ == (DuelView {
                ctx: EffectContext { next_modifier_id: id, ..old(self)@.ctx },
                ..old(self)@
            }),
    {
        self.effect_ctx.next_modifier_id = self.effect_ctx.next_modifier_id + 1;
        self.effect_ctx.next_modifier_id
    }

    /// Add a modifier to `card_id` (if it is in the arena), tagged with the
    /// `source` card that produced it. Returns the new modifier's id.
    pub fn add_modifier(&mut self, card_id: CardId, source: CardId, mod_type: ModifierType) -> (id: u32)
        requires
            old(self).wf(),
            old(self)@.ctx.next_modifier_id < u32::MAX,
        ensures
            final(self).wf(),
            id == old(self)@.ctx.next_modifier_id + 1,
            final(self)@.cards.dom() == old(self)@.cards.dom(),
            forall|k: u64|
                #![trigger final(self)@.cards[k]]
                old(self)@.cards.contains_key(k) ==> if k == probe_key(card_id.ffi()) {
                    same_but_modifiers(old(self)@.cards[k], final(self)@.cards[k])
                        && final(self)@.cards[k].modifiers@ == old(self)@.cards[k].modifiers@.push(
                        Modifier { id, source, mod_type },
                    )
                } else {
                    final(self)@.cards[k] == old(self)@.cards[k]
                },
            final(self)@ == (DuelView {
                cards: final(self)@.cards,
                ctx: EffectContext { next_modifier_id: id, ..old(self)@.ctx },
                ..old(self)@
            }),
            Duel::sound(old(self)@) && (final(self)@.card(card_id) matches Some(c) ==> small_card(c))
                ==> Duel::sound(final(self)@),
    {
        proof {
            crate::arena::lemma_probe_idempotent(card_id.ffi());
        }
        let id = self.next_modifier_id();
        match arena_get_mut(&mut self.cards, card_id.to_ffi()) {
            Some(card) => {
                card.modifiers.push(Modifier { id, source, mod_type });
            },
            None => {},
        }
        id
    }

    /// `v` without the modifiers `drop` picks out, in order.
    fn keep_modifiers(v: &Vec<Modifier>, by_source: bool, source: CardId, id: u32) -> (r: Vec<Modifier>)
        ensures
            r@ == v@.filter(|m: Modifier| keeps(m, by_source, source, id)),
    {
        let mut r: Vec<Modifier> = Vec::new();
        let mut i: usize = 0;
        while i < v.len()
            invariant
                i <= v@.len(),
                r@ == v@.take(i as int).filter(|m: Modifier| keeps(m, by_source, source, id)),
            decreases v@.len() - i,
        {
            proof {
                assert(v@.take(i as int + 1).drop_last() =~= v@.take(i as int));
                reveal_with_fuel(Seq::filter, 1);
            }
            let m = v[i];
            let keep = if by_source {
                m.source != source
            } else {
                m.id != id
            };
            if keep {
                r.push(m);
            }
            i = i + 1;
        }
        assert(v@.take(i as int) =~= v@);
        r
    }

    /// Strip the modifiers `keeps` rejects from every card in the arena and
    /// from both players' lists.
    fn strip_modifiers(&mut self, by_source: bool, source: CardId, id: u32)
        requires
            old(self).wf(),
        ensures
            final(self).wf(),
            final(self)@.cards.dom() == old(self)@.cards.dom(),
            forall|k: u64|
                #![trigger final(self)@.cards[k]]
                old(self)@.cards.contains_key(k) ==> same_but_modifiers(
                    old(self)@.cards[k],
                    final(self)@.cards[k],
                ) && final(self)@.cards[k].modifiers@ == old(self)@.cards[k].modifiers@.filter(
                    |m: Modifier| keeps(m, by_source, source, id),
                ),
            final(self)@.player_mods == old(self)@.player_mods.map_values(
                |s: Seq<Modifier>| s.filter(|m: Modifier| keeps(m, by_source, source, id)),
            ),
            final(self)@ == (DuelView {
                cards: final(self)@.cards,
                player_mods: final(self)@.player_mods,
                ..old(self)@
            }),
    {
        let ghost c0 = self@.cards;
        let keys = arena_keys(&self.cards);
        let mut i: usize = 0;
        while i < keys.len()
            invariant
                self.wf(),
                i <= keys@.len(),
                keys@.no_duplicates(),
                keys@.to_set() == c0.dom(),
                self@.cards.dom() == c0.dom(),
                forall|j: int|
                    #![trigger keys@[j]]
                    0 <= j < i ==> same_but_modifiers(c0[keys@[j]], self@.cards[keys@[j]])
                        && self@.cards[keys@[j]].modifiers@ == c0[keys@[j]].modifiers@.filter(
                        |m: Modifier| keeps(m, by_source, source, id),
                    ),
                forall|k: u64|
                    #![trigger self@.cards[k]]
                    c0.contains_key(k) && !keys@.take(i as int).contains(k) ==> self@.cards[k]
                        == c0[k],
                self@ == (DuelView { cards: self@.cards, ..old(self)@ }),
            decreases keys@.len() - i,
        {
            let k = keys[i];
            proof {
                assert(keys@.to_set().contains(k));
                assert(probe_key(k) == k);
                assert(!keys@.take(i as int).contains(k));
                assert forall|j: int| 0 <= j < i implies keys@[j] != k by {
                    assert(keys@[j] != keys@[i as int]);
                }
            }
            let ghost before = self@.cards;
            match arena_get_mut(&mut self.cards, k) {
                Some(card) => {
                    let kept = Duel::keep_modifiers(&card.modifiers, by_source, source, id);
                    card.modifiers = kept;
                },
                None => {},
            }
            proof {
                assert forall|k2: u64|
                    c0.contains_key(k2) && !keys@.take(i as int + 1).contains(k2) implies #[trigger] self@.cards[k2]
                    == c0[k2] by {
                    assert(k2 != k) by {
                        assert(keys@.take(i as int + 1)[i as int] == k);
                    }
                    if keys@.take(i as int).contains(k2) {
                        let j = choose|j: int| 0 <= j < i && keys@.take(i as int)[j] == k2;
                        assert(keys@.take(i as int + 1)[j] == k2);
                    }
                }
                assert(c0.contains_key(k));
                assert(before[k] == c0[k]);
            }
            i = i + 1;
        }
        proof {
            assert forall|k: u64| #[trigger] c0.contains_key(k) implies exists|j: int|
                0 <= j < keys@.len() && keys@[j] == k by {
                assert(keys@.to_set().contains(k));
            }
        }
        let ghost pm0 = self@.player_mods;
        let kept0 = Duel::keep_modifiers(&self.player_modifiers[0], by_source, source, id);
        self.player_modifiers[0] = kept0;
        let kept1 = Duel::keep_modifiers(&self.player_modifiers[1], by_source, source, id);
        self.player_modifiers[1] = kept1;
        assert(self@.player_mods =~= pm0.map_values(
            |s: Seq<Modifier>| s.filter(|m: Modifier| keeps(m, by_source, source, id)),
        ));
    }

    /// Remove every modifier produced by `source`, from every card it touched
    /// and from both players' lists (e.g. when the source's continuous effect
    /// stops applying).
    pub fn remove_modifiers_from(&mut self, source: CardId)
        requires
            old(self).wf(),
        ensures
            final(self).wf(),
            final(self)@.cards.dom() == old(self)@.cards.dom(),
            forall|k: u64|
                #![trigger final(self)@.cards[k]]
                old(self)@.cards.contains_key(k) ==> same_but_modifiers(
                    old(self)@.cards[k],
                    final(self)@.cards[k],
                ) && final(self)@.cards[k].modifiers@ == old(self)@.cards[k].modifiers@.filter(
                    |m: Modifier| m.source != source,
                ),
            final(self)@.player_mods == old(self)@.player_mods.map_values(
                |s: Seq<Modifier>| s.filter(|m: Modifier| m.source != source),
            ),
            final(self)@ == (DuelView {
                cards: final(self)@.cards,
                player_mods: final(self)@.player_mods,
                ..old(self)@
            }),
            Duel::sound(old(self)@) ==> Duel::sound(final(self)@),
    {
        self.strip_modifiers(true, source, 0);
        proof {
            assert((|m: Modifier| keeps(m, true, source, 0)) =~= (|m: Modifier| m.source != source));
            assert((|s: Seq<Modifier>| s.filter(|m: Modifier| keeps(m, true, source, 0))) =~= (|s: Seq<Modifier>| s.filter(|m: Modifier| m.source != source)));
            if Duel::sound(old(self)@) {
                assert forall|k: u64| #[trigger] self@.cards.contains_key(k) implies small_card(self@.cards[k]) by {
                    let c = old(self)@.cards[k];
                    lemma_filter_small(c.data.atk, c.modifiers@, true, |m: Modifier| m.source != source);
                    lemma_filter_small(c.data.def, c.modifiers@, false, |m: Modifier| m.source != source);
                }
            }
        }
    }

    /// Remove the single modifier with `id`, from wherever it lives (any card
    /// or either player's list).
    pub fn remove_modifier(&mut self, id: u32)
        requires
            old(self).wf(),
        ensures
            final(self).wf(),
            final(self)@.cards.dom() == old(self)@.cards.dom(),
            forall|k: u64|
                #![trigger final(self)@.cards[k]]
                old(self)@.cards.contains_key(k) ==> same_but_modifiers(
                    old(self)@.cards[k],
                    final(self)@.cards[k],
                ) && final(self)@.cards[k].modifiers@ == old(self)@.cards[k].modifiers@.filter(
                    |m: Modifier| m.id != id,
                ),
            final(self)@.player_mods == old(self)@.player_mods.map_values(
                |s: Seq<Modifier>| s.filter(|m: Modifier| m.id != id),
            ),
            final(self)@ == (DuelView {
                cards: final(self)@.cards,
                player_mods: final(self)@.player_mods,
                ..old(self)@
            }),
            Duel::sound(old(self)@) ==> Duel::sound(final(self)@),
    {
        let nobody = CardId { key: 0 };
        self.strip_modifiers(false, nobody, id);
        proof {
            assert((|m: Modifier| keeps(m, false, nobody, id)) =~= (|m: Modifier| m.id != id));
            assert((|s: Seq<Modifier>| s.filter(|m: Modifier| keeps(m, false, nobody, id))) =~= (|s: Seq<Modifier>| s.filter(|m: Modifier| m.id != id)));
            if Duel::sound(old(self)@) {
                assert forall|k: u64| #[trigger] self@.cards.contains_key(k) implies small_card(self@.cards[k]) by {
                    let c = old(self)@.cards[k];
                    lemma_filter_small(c.data.atk, c.modifiers@, true, |m: Modifier| m.id != id);
                    lemma_filter_small(c.data.def, c.modifiers@, false, |m: Modifier| m.id != id);
                }
            }
        }
    }

    /// Add a modifier to `player` (not a card), tagged with its `source`.
    /// Returns the new modifier's id.
    pub fn add_player_modifier(&mut self, player: usize, source: CardId, mod_type: ModifierType) -> (id: u32)
        requires
            old(self).wf(),
            player < 2,
            old(self)@.ctx.next_modifier_id < u32::MAX,
        ensures
            final(self).wf(),
            id == old(self)@.ctx.next_modifier_id + 1,
            final(self)@ == (DuelView {
                player_mods: old(self)@.player_mods.update(
                    player as int,
                    old(self)@.player_mods[player as int].push(Modifier { id, source, mod_type }),
                ),
                ctx: EffectContext { next_modifier_id: id, ..old(self)@.ctx },
                ..old(self)@
            }),
    {
        let id = self.next_modifier_id();
        self.player_modifiers[player].push(Modifier { id, source, mod_type });
        assert(self@.player_mods =~= old(self)@.player_mods.update(
            player as int,
            old(self)@.player_mods[player as int].push(Modifier { id, source, mod_type }),
        ));
        id
    }

    /// Whether `player` can currently take battle damage: false while any
    /// `NoBattleDamage` modifier is in force for them.
    pub fn can_take_battle_damage(&self, player: usize) -> (b: bool)
        requires
            self.wf(),
            player < 2,
        ensures
            b == Duel::takes_battle_damage(self@, player),
    {
        let mods = &self.player_modifiers[player];
        let mut i: usize = 0;
        while i < mods.len()
            invariant
                i <= mods@.len(),
                mods@ == self@.player_mods[player as int],
                forall|j: int| 0 <= j < i ==> mods@[j].mod_type != ModifierType::NoBattleDamage,
            decreases mods@.len() - i,
        {
            if mods[i].mod_type == ModifierType::NoBattleDamage {
                return false;
            }
            i = i + 1;
        }
        true
    }

    /// `player` takes battle damage unless a `NoBattleDamage` modifier is in
    /// force for them.
    pub open spec fn takes_battle_damage(v: DuelView, player: usize) -> bool {
        forall|j: int|
            0 <= j < v.player_mods[player as int].len() ==> (#[trigger] v.player_mods[player as int][j]).mod_type
                != ModifierType::NoBattleDamage
    }
}

/// Whether a modifier touches ATK (a change or a set of it).
pub open spec fn is_atk_modifier(m: ModifierType) -> bool {
    m is AtkChange || m is SetAtk
}

/// Whether a modifier touches DEF (a change or a set of it).
pub open spec fn is_def_modifier(m: ModifierType) -> bool {
    m is DefChange || m is SetDef
}

/// Each stat folds only its own modifiers: adding an ATK modifier leaves
/// DEF as it was, and adding a DEF modifier leaves ATK as it was.
pub proof fn lemma_stats_independent(printed: i32, mods: Seq<Modifier>, m: Modifier)
    ensures
        is_atk_modifier(m.mod_type) ==> stat_value(printed, mods.push(m), false) == stat_value(printed, mods, false),
        is_def_modifier(m.mod_type) ==> stat_value(printed, mods.push(m), true) == stat_value(printed, mods, true),
{
    assert(mods.push(m).drop_last() =~= mods);
}

/// A fold that stays in range is its base plus its changes, floored at 0.
pub proof fn lemma_fold_exact(printed: i32, mods: Seq<Modifier>, atk: bool)
    requires
        fold_fits(printed, mods, atk),
    ensures
        stat_value(printed, mods, atk) >= 0,
        stat_value(printed, mods, atk) as int == ({
            let raw = stat_base(printed, mods, atk) + change_sum(mods, atk);
            if raw < 0 { 0 } else { raw }
        }),
{
    assert(mods.take(mods.len() as int) =~= mods);
}

/// Adding a change of `n` to a stat adds `n` to its fold (before the floor
/// at 0): on a card with no modifiers, the stat becomes the printed value
/// plus `n`, floored at 0.
pub proof fn lemma_change_adds(printed: i32, mods: Seq<Modifier>, m: Modifier, n: i32, atk: bool)
    requires
        m.mod_type == (if atk { ModifierType::AtkChange(n) } else { ModifierType::DefChange(n) }),
        fold_fits(printed, mods.push(m), atk),
    ensures
        stat_value(printed, mods.push(m), atk) as int == ({
            let after = stat_base(printed, mods, atk) + change_sum(mods, atk) + n;
            if after < 0 { 0 } else { after }
        }),
        mods.len() == 0 ==> stat_value(printed, mods.push(m), atk) as int == (if printed + n < 0 {
            0
        } else {
            printed + n
        }),
{
    assert(mods.push(m).drop_last() =~= mods);
    lemma_fold_exact(printed, mods.push(m), atk);
}

/// Adding a set of a stat to `n` makes `n` its base, whatever was printed or
/// set before; the changes already made still stack on top.
pub proof fn lemma_set_overrides(printed: i32, other: i32, mods: Seq<Modifier>, m: Modifier, atk: bool)
    requires
        m.mod_type == (if atk {
            ModifierType::SetAtk(m.mod_type->SetAtk_0)
        } else {
            ModifierType::SetDef(m.mod_type->SetDef_0)
        }),
    ensures
        stat_value(printed, mods.push(m), atk) == stat_value(other, mods.push(m), atk),
        stat_base(printed, mods.push(m), atk) == (if atk { m.mod_type->SetAtk_0 } else { m.mod_type->SetDef_0 }),
{
    assert(mods.push(m).drop_last() =~= mods);
}

/// The win conditions: a player loses at 0 life points or when decked out.
/// When exactly one player has lost, the other wins and the recorded reason
/// is the loser's own (life points if theirs are gone, else deck-out); when
/// both have lost, the duel is a draw (with player 0's reason); when
/// neither has, nothing changes.
/// Only the result and its reason ever change.
pub proof fn lemma_win_reason(v: DuelView, loser: usize)
    requires
        loser < 2,
        v.lps.len() == 2,
        v.decked_out.len() == 2,
    ensures
        ({
            let other = 1 - loser;
            let lost = v.lps[loser as int] == 0 || v.decked_out[loser as int];
            let other_lost = v.lps[other] == 0 || v.decked_out[other];
            let w = checked(v);
            &&& w == (DuelView { result: w.result, win_reason: w.win_reason, ..v })
            &&& lost && !other_lost ==> w.result == Some(Winner::Player(other as usize)) && w.win_reason == Some(
                if v.lps[loser as int] == 0 {
                    WinReason::LifePointsDepleted
                } else {
                    WinReason::DeckOut
                },
            )
            &&& lost && other_lost ==> w.result == Some(Winner::Draw) && w.win_reason == Some(
                if v.lps[0] == 0 {
                    WinReason::LifePointsDepleted
                } else {
                    WinReason::DeckOut
                },
            )
            &&& !lost && !other_lost ==> w == v
        }),
{
}

/// Losing life points takes them from that player only, down to 0 at most,
/// and then re-checks the win conditions; nothing else changes.
pub proof fn lemma_lp_loss(v: DuelView, player: usize, lp: u32)
    requires
        player < 2,
        v.lps.len() == 2,
    ensures
        ({
            let w = after_lp_loss(v, player, lp);
            &&& w.lps.len() == 2
            &&& w.lps[player as int] as int == (if lp <= v.lps[player as int] { v.lps[player as int] - lp } else { 0 })
            &&& w.lps[1 - player] == v.lps[1 - player]
            &&& w == (DuelView { lps: w.lps, result: w.result, win_reason: w.win_reason, ..v })
        }),
{
}

} // verus!
