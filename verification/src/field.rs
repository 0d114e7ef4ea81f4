//! The tabletop: where cards physically sit.
//!
//! Two views of location:
//! - the locations: each card's `(player, zone)`, kept in id order;
//! - per-player ordered piles (`decks`, `hands`) where order matters, e.g.
//!   "draw the top card of player 0's deck".

use vstd::prelude::*;

use crate::ids::CardId;
use crate::zone::Zone;

verus! {

/// One recorded location: the card's id key, whose zone it sits in, and
/// which kind of zone.
#[derive(Debug, Clone, Copy, PartialEq, Eq, Structural)]
struct Spot {
    key: u64,
    player: usize,
    zone: Zone,
}

/// Spots in strictly increasing key order (so each key occurs once).
spec fn sorted_spots(s: Seq<Spot>) -> bool {
    forall|i: int, j: int| 0 <= i < j < s.len() ==> s[i].key < s[j].key
}

/// The location map a spot list stands for.
spec fn spots_view(s: Seq<Spot>) -> Map<u64, (usize, Zone)> {
    Map::new(
        |k: u64| exists|i: int| 0 <= i < s.len() && s[i].key == k,
        |k: u64|
            {
                let i = choose|i: int| 0 <= i < s.len() && s[i].key == k;
                (s[i].player, s[i].zone)
            },
    )
}

/// The ids of the spots (in list order) that sit in `player`'s `zone`.
spec fn keys_at(s: Seq<Spot>, player: usize, zone: Zone) -> Seq<CardId>
    decreases s.len(),
{
    if s.len() == 0 {
        Seq::empty()
    } else {
        let rest = keys_at(s.drop_last(), player, zone);
        if s.last().player == player && s.last().zone == zone {
            rest.push(CardId { key: s.last().key })
        } else {
            rest
        }
    }
}

proof fn lemma_spot_in_view(s: Seq<Spot>, i: int)
    requires
        sorted_spots(s),
        0 <= i < s.len(),
    ensures
        spots_view(s).contains_key(s[i].key),
        spots_view(s)[s[i].key] == (s[i].player, s[i].zone),
{
    let k = s[i].key;
    assert(spots_view(s).contains_key(k));
    let j = choose|j: int| 0 <= j < s.len() && s[j].key == k;
    assert(j == i);
}

proof fn lemma_keys_at(s: Seq<Spot>, player: usize, zone: Zone)
    requires
        sorted_spots(s),
    ensures
        forall|c: CardId|
            #![trigger keys_at(s, player, zone).contains(c)]
            keys_at(s, player, zone).contains(c) <==> (spots_view(s).contains_key(c.key)
                && spots_view(s)[c.key] == (player, zone)),
        forall|a: int, b: int|
            0 <= a < b < keys_at(s, player, zone).len() ==> keys_at(s, player, zone)[a].key
                < keys_at(s, player, zone)[b].key,
        forall|a: int|
            0 <= a < keys_at(s, player, zone).len() ==> exists|i: int|
                0 <= i < s.len() && s[i].key == #[trigger] keys_at(s, player, zone)[a].key,
    decreases s.len(),
{
    if s.len() > 0 {
        let t = s.drop_last();
        assert(sorted_spots(t));
        lemma_keys_at(t, player, zone);
        let last = s.last();
        let kt = keys_at(t, player, zone);
        let ks = keys_at(s, player, zone);
        assert forall|c: CardId| #[trigger]
            ks.contains(c) <==> (spots_view(s).contains_key(c.key) && spots_view(s)[c.key] == (
                player,
                zone,
            )) by {
            if ks.contains(c) {
                let a = choose|a: int| 0 <= a < ks.len() && ks[a] == c;
                if last.player == player && last.zone == zone && a == kt.len() {
                    lemma_spot_in_view(s, s.len() - 1);
                } else {
                    assert(kt[a] == c);
                    assert(kt.contains(c));
                    let i = choose|i: int| 0 <= i < t.len() && t[i].key == c.key;
                    lemma_spot_in_view(t, i);
                    lemma_spot_in_view(s, i);
                }
            }
            if spots_view(s).contains_key(c.key) && spots_view(s)[c.key] == (player, zone) {
                let i = choose|i: int| 0 <= i < s.len() && s[i].key == c.key;
                lemma_spot_in_view(s, i);
                if i == s.len() - 1 {
                    assert(ks[ks.len() - 1] == c);
                } else {
                    lemma_spot_in_view(t, i);
                    assert(kt.contains(c));
                    let a = choose|a: int| 0 <= a < kt.len() && kt[a] == c;
                    assert(ks[a] == c);
                }
            }
        }
        assert forall|a: int|
            0 <= a < ks.len() implies exists|i: int|
                0 <= i < s.len() && s[i].key == #[trigger] ks[a].key by {
            if a < kt.len() {
                assert(ks[a] == kt[a]);
                let i = choose|i: int| 0 <= i < t.len() && t[i].key == kt[a].key;
                assert(s[i].key == ks[a].key);
            } else {
                assert(s[s.len() - 1].key == ks[a].key);
            }
        }
        assert forall|a: int, b: int| 0 <= a < b < ks.len() implies ks[a].key < ks[b].key by {
            if b < kt.len() {
                assert(ks[a] == kt[a] && ks[b] == kt[b]);
            } else {
                assert(ks[a] == kt[a]);
                let i = choose|i: int| 0 <= i < t.len() && t[i].key == kt[a].key;
                assert(s[i].key < s[s.len() - 1].key);
            }
        }
    }
}

/// Apply `place` for each card of `cards` in turn, all to the same location.
pub open spec fn place_all(
    m: Map<u64, (usize, Zone)>,
    cards: Seq<CardId>,
    at: (usize, Zone),
) -> Map<u64, (usize, Zone)>
    decreases cards.len(),
{
    if cards.len() == 0 {
        m
    } else {
        place_all(m, cards.drop_last(), at).insert(cards.last().key, at)
    }
}

/// Placing cards at a location of player 0 or 1 keeps every location's
/// player 0 or 1.
pub proof fn lemma_place_all_players(m: Map<u64, (usize, Zone)>, cards: Seq<CardId>, at: (usize, Zone))
    requires
        forall|k: u64| #[trigger] m.contains_key(k) ==> m[k].0 < 2,
        at.0 < 2,
    ensures
        forall|k: u64| #[trigger] place_all(m, cards, at).contains_key(k) ==> place_all(m, cards, at)[k].0 < 2,
    decreases cards.len(),
{
    if cards.len() > 0 {
        lemma_place_all_players(m, cards.drop_last(), at);
        let before = place_all(m, cards.drop_last(), at);
        assert forall|k: u64| #[trigger] place_all(m, cards, at).contains_key(k) implies place_all(m, cards, at)[k].0
            < 2 by {
            if k != cards.last().key {
                assert(before.contains_key(k));
            }
        }
    }
}

/// Placing two runs of cards one after the other is placing their
/// concatenation.
pub proof fn lemma_place_all_concat(
    m: Map<u64, (usize, Zone)>,
    a: Seq<CardId>,
    b: Seq<CardId>,
    at: (usize, Zone),
)
    ensures
        place_all(place_all(m, a, at), b, at) == place_all(m, a + b, at),
    decreases b.len(),
{
    if b.len() == 0 {
        assert(a + b =~= a);
    } else {
        lemma_place_all_concat(m, a, b.drop_last(), at);
        assert((a + b).drop_last() =~= a + b.drop_last());
        assert((a + b).last() == b.last());
    }
}

/// The smaller of two counts.
pub open spec fn min_count(a: int, b: int) -> int {
    if a < b {
        a
    } else {
        b
    }
}

/// The tabletop.
#[derive(Debug)]
pub struct Field {
    /// Where each card is: whose zone, and which kind; in id-key order.
    spots: Vec<Spot>,
    decks: [Vec<CardId>; 2],
    hands: [Vec<CardId>; 2],
}

impl Field {
    /// The field's internal order holds.
    pub closed spec fn wf(&self) -> bool {
        sorted_spots(self.spots@)
    }

    /// Each located card (by id key): the player whose zone it is in, and
    /// the kind of zone.
    pub closed spec fn locs(&self) -> Map<u64, (usize, Zone)> {
        spots_view(self.spots@)
    }

    /// Player `p`'s deck pile; its last element is the top card.
    pub closed spec fn deck(&self, p: int) -> Seq<CardId> {
        self.decks[p]@
    }

    /// Player `p`'s hand, in slot order.
    pub closed spec fn hand(&self, p: int) -> Seq<CardId> {
        self.hands[p]@
    }

    /// The cards in `player`'s `zone`, in id order.
    pub closed spec fn cards_at(&self, player: usize, zone: Zone) -> Seq<CardId> {
        keys_at(self.spots@, player, zone)
    }

    /// Where `card` is, if it has been placed.
    pub open spec fn location(&self, card: CardId) -> Option<(usize, Zone)> {
        if self.locs().contains_key(card.key) {
            Some(self.locs()[card.key])
        } else {
            None
        }
    }

    /// The piles are unchanged between two states.
    pub open spec fn same_piles(&self, other: &Field) -> bool {
        &&& self.deck(0) == other.deck(0)
        &&& self.deck(1) == other.deck(1)
        &&& self.hand(0) == other.hand(0)
        &&& self.hand(1) == other.hand(1)
    }

    /// `cards_at` lists exactly the cards located in `player`'s `zone`, each
    /// once, in increasing id order.
    pub proof fn lemma_cards_at(&self, player: usize, zone: Zone)
        requires
            self.wf(),
        ensures
            forall|c: CardId|
                #![trigger self.cards_at(player, zone).contains(c)]
                self.cards_at(player, zone).contains(c) <==> self.location(c) == Some(
                    (player, zone),
                ),
            forall|a: int, b: int|
                0 <= a < b < self.cards_at(player, zone).len() ==> self.cards_at(player, zone)[a].key
                    < self.cards_at(player, zone)[b].key,
    {
        lemma_keys_at(self.spots@, player, zone);
    }

    /// An empty table.
    pub fn new() -> (f: Self)
        ensures
            f.wf(),
            f.locs() == Map::<u64, (usize, Zone)>::empty(),
            f.deck(0) == Seq::<CardId>::empty(),
            f.deck(1) == Seq::<CardId>::empty(),
            f.hand(0) == Seq::<CardId>::empty(),
            f.hand(1) == Seq::<CardId>::empty(),
            f.piles_match(),
    {
        let f = Field { spots: Vec::new(), decks: [Vec::new(), Vec::new()], hands: [Vec::new(), Vec::new()] };
        assert(f.locs() =~= Map::<u64, (usize, Zone)>::empty());
        assert forall|p: int| 0 <= p < 2 implies {
            &&& f.deck(p).no_duplicates()
            &&& f.deck(p).to_set() == f.located(p as usize, Zone::Deck)
            &&& f.hand(p).no_duplicates()
            &&& f.hand(p).to_set() == f.located(p as usize, Zone::Hand)
        } by {
            assert(f.deck(p).to_set() =~= f.located(p as usize, Zone::Deck));
            assert(f.hand(p).to_set() =~= f.located(p as usize, Zone::Hand));
        }
        f
    }

    /// The first position whose key is at least `key`, and whether that
    /// position holds `key` itself.
    fn find(&self, key: u64) -> (r: (usize, bool))
        requires
            self.wf(),
        ensures
            r.0 <= self.spots@.len(),
            forall|i: int| 0 <= i < r.0 ==> self.spots@[i].key < key,
            forall|i: int| r.0 <= i < self.spots@.len() ==> self.spots@[i].key >= key,
            r.1 == (r.0 < self.spots@.len() && self.spots@[r.0 as int].key == key),
    {
        let mut i: usize = 0;
        while i < self.spots.len()
            invariant
                i <= self.spots@.len(),
                sorted_spots(self.spots@),
                forall|j: int| 0 <= j < i ==> self.spots@[j].key < key,
            decreases self.spots@.len() - i,
        {
            if self.spots[i].key >= key {
                return (i, self.spots[i].key == key);
            }
            i = i + 1;
        }
        (i, false)
    }

    /// Record `card` as being in `player`'s `zone` (the piles are left as they
    /// are).
    #[verifier::rlimit(30)]
    pub fn place(&mut self, player: usize, card: CardId, zone: Zone)
        requires
            old(self).wf(),
        ensures
            final(self).wf(),
            final(self).locs() == old(self).locs().insert(card.key, (player, zone)),
            final(self).same_piles(old(self)),
    {
        let (i, found) = self.find(card.key);
        let spot = Spot { key: card.key, player, zone };
        let ghost s0 = self.spots@;
        if found {
            self.spots.set(i, spot);
        } else {
            self.spots.insert(i, spot);
        }
        let ghost s1 = self.spots@;
        assert(sorted_spots(s1)) by {
            if !found {
                assert forall|a: int, b: int| 0 <= a < b < s1.len() implies s1[a].key
                    < s1[b].key by {
                    if b < i {
                        assert(s1[a] == s0[a] && s1[b] == s0[b]);
                    } else if b == i {
                        assert(s1[a] == s0[a]);
                    } else if a < i {
                        assert(s1[a] == s0[a] && s1[b] == s0[b - 1]);
                    } else if a == i {
                        assert(s1[b] == s0[b - 1]);
                    } else {
                        assert(s1[a] == s0[a - 1] && s1[b] == s0[b - 1]);
                    }
                }
            }
        }
        let ghost want = spots_view(s0).insert(card.key, (player, zone));
        assert(spots_view(s1) =~= want) by {
            assert forall|k: u64| #[trigger] spots_view(s1).contains_key(k) == want.contains_key(k)
                by {
                if spots_view(s1).contains_key(k) {
                    let j = choose|j: int| 0 <= j < s1.len() && s1[j].key == k;
                    if k != card.key {
                        if found {
                            assert(s0[j].key == k);
                        } else if j < i {
                            assert(s0[j].key == k);
                        } else {
                            assert(s0[j - 1].key == k);
                        }
                    }
                }
                if want.contains_key(k) && k != card.key {
                    let j = choose|j: int| 0 <= j < s0.len() && s0[j].key == k;
                    if found || j < i {
                        assert(s1[j].key == k);
                    } else {
                        assert(s1[j + 1].key == k);
                    }
                }
                if k == card.key {
                    assert(s1[i as int].key == k);
                }
            }
            assert forall|k: u64| #[trigger]
                spots_view(s1).contains_key(k) implies spots_view(s1)[k] == want[k] by {
                let j = choose|j: int| 0 <= j < s1.len() && s1[j].key == k;
                lemma_spot_in_view(s1, j);
                if k == card.key {
                    assert(j == i);
                } else if found || j < i {
                    lemma_spot_in_view(s0, j);
                } else {
                    lemma_spot_in_view(s0, j - 1);
                }
            }
        }
    }

    /// The kind of zone `card` sits in, if it has been placed.
    pub fn zone_of(&self, card: CardId) -> (z: Option<Zone>)
        requires
            self.wf(),
        ensures
            z == match self.location(card) {
                Some(l) => Some(l.1),
                None => None::<Zone>,
            },
    {
        match self.lookup(card) {
            Some(l) => Some(l.1),
            None => None,
        }
    }

    /// The player whose zone `card` sits in, if it has been placed.
    pub fn owner_of(&self, card: CardId) -> (o: Option<usize>)
        requires
            self.wf(),
        ensures
            o == match self.location(card) {
                Some(l) => Some(l.0),
                None => None::<usize>,
            },
    {
        match self.lookup(card) {
            Some(l) => Some(l.0),
            None => None,
        }
    }

    /// Who controls `card`: the player whose zone it sits in, if placed.
    pub fn controller_of(&self, card: CardId) -> (o: Option<usize>)
        requires
            self.wf(),
        ensures
            o == match self.location(card) {
                Some(l) => Some(l.0),
                None => None::<usize>,
            },
    {
        self.owner_of(card)
    }

    /// Where `card` is, if placed.
    fn lookup(&self, card: CardId) -> (l: Option<(usize, Zone)>)
        requires
            self.wf(),
        ensures
            l == self.location(card),
    {
        let (i, found) = self.find(card.key);
        if found {
            proof {
                lemma_spot_in_view(self.spots@, i as int);
            }
            Some((self.spots[i].player, self.spots[i].zone))
        } else {
            assert(!self.locs().contains_key(card.key)) by {
                if self.locs().contains_key(card.key) {
                    let j = choose|j: int|
                        0 <= j < self.spots@.len() && self.spots@[j].key == card.key;
                    if j < i {
                    } else {
                        assert(self.spots@[j].key >= card.key);
                        if j > i {
                            assert(self.spots@[i as int].key < self.spots@[j].key);
                        }
                    }
                }
            }
            None
        }
    }

    /// Every located card is in the zone of player 0 or player 1.
    pub open spec fn players_in_range(&self) -> bool {
        forall|k: u64| #[trigger] self.locs().contains_key(k) ==> self.locs()[k].0 < 2
    }

    /// Sending a card keeps every located card in player 0's or player 1's
    /// zone.
    pub proof fn lemma_send_keeps_players(old: &Field, new: &Field, card: CardId, zone: Zone)
        requires
            old.players_in_range(),
            old.after_send(new, card, zone),
        ensures
            new.players_in_range(),
            forall|c: CardId| #[trigger] new.pile_in_range(c),
    {
        assert forall|c: CardId| #[trigger] new.pile_in_range(c) by {
            if new.locs().contains_key(c.key) {
                assert(new.locs()[c.key].0 < 2);
            }
        }
    }

    /// Every located card's pile is in range when every player is.
    pub proof fn lemma_players_piles(&self, card: CardId)
        requires
            self.players_in_range(),
        ensures
            self.pile_in_range(card),
    {
        if self.locs().contains_key(card.key) {
            assert(self.locs()[card.key].0 < 2);
        }
    }

    /// If `card` sits in a deck or a hand, that pile is player 0's or player
    /// 1's, so it can be found.
    pub open spec fn pile_in_range(&self, card: CardId) -> bool {
        match self.location(card) {
            Some(l) => (l.1 == Zone::Deck || l.1 == Zone::Hand) ==> l.0 < 2,
            None => true,
        }
    }

    /// `card` can be sent to `zone`: the pile it leaves, if any, can be
    /// found, and so can the pile it joins when `zone` is a deck or a hand.
    pub open spec fn can_send(&self, card: CardId, zone: Zone) -> bool {
        &&& self.pile_in_range(card)
        &&& (zone == Zone::Deck || zone == Zone::Hand) ==> self.send_player(card) < 2
    }

    /// `pile` with every copy of `card` taken out.
    pub open spec fn without(pile: Seq<CardId>, card: CardId) -> Seq<CardId> {
        pile.filter(Field::other_than(card))
    }

    /// Whether a card is not `card`.
    pub open spec fn other_than(card: CardId) -> spec_fn(CardId) -> bool {
        |c: CardId| c != card
    }

    /// The player whose zones a sent card ends up in: the one whose zone it
    /// was in, or player 0 if it was never placed.
    pub open spec fn send_player(&self, card: CardId) -> usize {
        match self.location(card) {
            Some(l) => l.0,
            None => 0,
        }
    }

    /// Player `p`'s pile of kind `pile_zone` (a deck or a hand, given as
    /// `old_pile`) after `card` was sent to `zone`: the card has left it if
    /// it was there, and it has joined its end if it was sent to that pile.
    pub open spec fn pile_after_send(
        &self,
        old_pile: Seq<CardId>,
        p: int,
        pile_zone: Zone,
        card: CardId,
        zone: Zone,
    ) -> Seq<CardId> {
        let left = if self.location(card) == Some((p as usize, pile_zone)) {
            Field::without(old_pile, card)
        } else {
            old_pile
        };
        if zone == pile_zone && self.send_player(card) == p {
            left.push(card)
        } else {
            left
        }
    }

    /// `new` is `self` after `card` was sent to `zone`: it is now in that kind
    /// of zone of the player whose zone it was in (player 0 if it was never
    /// placed); it has left the deck or hand pile it was in, and a card sent
    /// to a deck or a hand is now on the end of that pile.
    pub open spec fn after_send(&self, new: &Field, card: CardId, zone: Zone) -> bool {
        &&& new.locs() == self.locs().insert(card.key, (self.send_player(card), zone))
        &&& forall|p: int|
            0 <= p < 2 ==> new.deck(p) == self.pile_after_send(self.deck(p), p, Zone::Deck, card, zone)
        &&& forall|p: int|
            0 <= p < 2 ==> new.hand(p) == self.pile_after_send(self.hand(p), p, Zone::Hand, card, zone)
    }

    /// The cards located in `p`'s zone of kind `zone`.
    pub open spec fn located(&self, p: usize, zone: Zone) -> Set<CardId> {
        Set::new(|c: CardId| self.location(c) == Some((p, zone)))
    }

    /// Each deck and hand pile lists each of its cards once, and exactly the
    /// cards located in that pile.
    pub open spec fn piles_match(&self) -> bool {
        forall|p: int|
            0 <= p < 2 ==> {
                &&& self.deck(p).no_duplicates()
                &&& self.deck(p).to_set() == self.located(p as usize, Zone::Deck)
                &&& self.hand(p).no_duplicates()
                &&& self.hand(p).to_set() == self.located(p as usize, Zone::Hand)
            }
    }

    /// Where the piles match the locations, each pile's length counts the
    /// cards located there.
    pub proof fn lemma_pile_counts(&self)
        requires
            self.piles_match(),
        ensures
            forall|p: int|
                0 <= p < 2 ==> self.deck(p).len() == self.located(p as usize, Zone::Deck).len() && self.hand(
                    p,
                ).len() == self.located(p as usize, Zone::Hand).len(),
    {
        assert forall|p: int| 0 <= p < 2 implies self.deck(p).len() == self.located(p as usize, Zone::Deck).len()
            && self.hand(p).len() == self.located(p as usize, Zone::Hand).len() by {
            self.deck(p).unique_seq_to_set();
            self.hand(p).unique_seq_to_set();
        }
    }

    /// Taking every copy of `card` out of a pile without repeats leaves a
    /// pile without repeats, holding the same cards but `card`.
    proof fn lemma_without(pile: Seq<CardId>, card: CardId)
        requires
            pile.no_duplicates(),
        ensures
            Field::without(pile, card).no_duplicates(),
            Field::without(pile, card).to_set() == pile.to_set().remove(card),
        decreases pile.len(),
    {
        reveal_with_fuel(Seq::filter, 1);
        let w = Field::without(pile, card);
        if pile.len() > 0 {
            let rest = pile.drop_last();
            assert(rest.no_duplicates()) by {
                assert forall|i: int, j: int| 0 <= i < rest.len() && 0 <= j < rest.len() && i != j implies rest[i]
                    != rest[j] by {
                    assert(rest[i] == pile[i] && rest[j] == pile[j]);
                }
            }
            Field::lemma_without(rest, card);
            let wr = Field::without(rest, card);
            assert(!rest.contains(pile.last())) by {
                if rest.contains(pile.last()) {
                    let i = choose|i: int| 0 <= i < rest.len() && rest[i] == pile.last();
                    assert(pile[i] == pile[pile.len() - 1]);
                }
            }
            if pile.last() != card {
                assert(w == wr.push(pile.last()));
                assert(!wr.contains(pile.last())) by {
                    if wr.contains(pile.last()) {
                        assert(wr.to_set().contains(pile.last()));
                        assert(rest.to_set().contains(pile.last()));
                    }
                }
                assert forall|i: int, j: int| 0 <= i < w.len() && 0 <= j < w.len() && i != j implies w[i] != w[j] by {
                    if i < wr.len() && j < wr.len() {
                    } else if i == wr.len() {
                        assert(wr.contains(wr[j]) || true);
                        if w[i] == w[j] {
                            assert(wr.contains(w[j]));
                        }
                    } else {
                        if w[i] == w[j] {
                            assert(wr.contains(w[i]));
                        }
                    }
                }
            } else {
                assert(w == wr);
            }
            let pred = Field::other_than(card);
            assert(w.to_set() =~= pile.to_set().remove(card)) by {
                assert forall|x: CardId| w.to_set().contains(x) <==> pile.to_set().remove(card).contains(x) by {
                    if w.contains(x) {
                        pile.lemma_filter_contains_rev(pred, x);
                    }
                    if pile.contains(x) && x != card {
                        let i = choose|i: int| 0 <= i < pile.len() && pile[i] == x;
                        pile.lemma_filter_contains(pred, i);
                    }
                }
            }
        } else {
            assert(w =~= pile);
            assert(pile.to_set() =~= pile.to_set().remove(card));
        }
    }

    /// Putting a card not yet in a pile without repeats on its end.
    proof fn lemma_push_new(pile: Seq<CardId>, card: CardId)
        requires
            pile.no_duplicates(),
            !pile.to_set().contains(card),
        ensures
            pile.push(card).no_duplicates(),
            pile.push(card).to_set() == pile.to_set().insert(card),
    {
        let q = pile.push(card);
        assert forall|i: int, j: int| 0 <= i < q.len() && 0 <= j < q.len() && i != j implies q[i] != q[j] by {
            if i == pile.len() && q[i] == q[j] {
                assert(pile.contains(q[j]));
            }
            if j == pile.len() && q[i] == q[j] {
                assert(pile.contains(q[i]));
            }
        }
        assert(q.to_set() =~= pile.to_set().insert(card)) by {
            assert forall|x: CardId| q.to_set().contains(x) <==> pile.to_set().insert(card).contains(x) by {
                if pile.contains(x) {
                    let i = choose|i: int| 0 <= i < pile.len() && pile[i] == x;
                    assert(q[i] == x);
                }
                if q.contains(x) && x != card {
                    let i = choose|i: int| 0 <= i < q.len() && q[i] == x;
                    assert(pile[i] == x);
                }
                if x == card {
                    assert(q[pile.len() as int] == x);
                }
            }
        }
    }

    /// Putting a card not yet in a pile without repeats at its front.
    proof fn lemma_prepend_new(pile: Seq<CardId>, card: CardId)
        requires
            pile.no_duplicates(),
            !pile.to_set().contains(card),
        ensures
            (seq![card] + pile).no_duplicates(),
            (seq![card] + pile).to_set() == pile.to_set().insert(card),
    {
        let q = seq![card] + pile;
        assert forall|i: int, j: int| 0 <= i < q.len() && 0 <= j < q.len() && i != j implies q[i] != q[j] by {
            if i == 0 && q[i] == q[j] {
                assert(pile[j - 1] == q[j]);
                assert(pile.contains(q[j]));
            } else if j == 0 && q[i] == q[j] {
                assert(pile[i - 1] == q[i]);
                assert(pile.contains(q[i]));
            } else if i > 0 && j > 0 {
                assert(q[i] == pile[i - 1] && q[j] == pile[j - 1]);
            }
        }
        assert(q.to_set() =~= pile.to_set().insert(card)) by {
            assert forall|x: CardId| q.to_set().contains(x) <==> pile.to_set().insert(card).contains(x) by {
                if pile.contains(x) {
                    let i = choose|i: int| 0 <= i < pile.len() && pile[i] == x;
                    assert(q[i + 1] == x);
                }
                if q.contains(x) && x != card {
                    let i = choose|i: int| 0 <= i < q.len() && q[i] == x;
                    assert(pile[i - 1] == x);
                }
                if x == card {
                    assert(q[0] == x);
                }
            }
        }
    }

    /// Adding a card that was nowhere to a player's deck or hand keeps the
    /// piles matching the locations.
    proof fn lemma_add_keeps_piles(old: &Field, new: &Field, player: usize, card: CardId, kind: Zone)
        requires
            old.piles_match(),
            old.location(card) is None,
            player < 2,
            kind == Zone::Deck || kind == Zone::Hand,
            new.locs() == old.locs().insert(card.key, (player, kind)),
            new.deck(1 - player) == old.deck(1 - player),
            new.hand(1 - player) == old.hand(1 - player),
            kind == Zone::Deck ==> new.hand(player as int) == old.hand(player as int),
            kind == Zone::Hand ==> new.deck(player as int) == old.deck(player as int),
            kind == Zone::Deck ==> new.deck(player as int).no_duplicates() && new.deck(player as int).to_set()
                == old.deck(player as int).to_set().insert(card),
            kind == Zone::Hand ==> new.hand(player as int).no_duplicates() && new.hand(player as int).to_set()
                == old.hand(player as int).to_set().insert(card),
        ensures
            new.piles_match(),
    {
        assert forall|c: CardId| #[trigger] new.location(c) == if c == card {
            Some((player, kind))
        } else {
            old.location(c)
        } by {
            if c.key == card.key {
                assert(c == card);
            }
        }
        assert forall|p: int| 0 <= p < 2 implies {
            &&& new.deck(p).no_duplicates()
            &&& new.deck(p).to_set() == new.located(p as usize, Zone::Deck)
            &&& new.hand(p).no_duplicates()
            &&& new.hand(p).to_set() == new.located(p as usize, Zone::Hand)
        } by {
            if p == player {
                assert(new.deck(p).to_set() =~= new.located(p as usize, Zone::Deck));
                assert(new.hand(p).to_set() =~= new.located(p as usize, Zone::Hand));
            } else {
                assert(p == 1 - player);
                assert(new.deck(p).to_set() =~= new.located(p as usize, Zone::Deck));
                assert(new.hand(p).to_set() =~= new.located(p as usize, Zone::Hand));
            }
        }
    }

    /// Drawing the top card of a deck into the same player's hand keeps the
    /// piles matching the locations.
    proof fn lemma_draw_one_keeps_piles(old: &Field, new: &Field, player: usize, card: CardId)
        requires
            old.piles_match(),
            player < 2,
            old.deck(player as int).len() > 0,
            card == old.deck(player as int).last(),
            new.deck(player as int) == old.deck(player as int).drop_last(),
            new.hand(player as int) == old.hand(player as int).push(card),
            new.deck(1 - player) == old.deck(1 - player),
            new.hand(1 - player) == old.hand(1 - player),
            new.locs() == old.locs().insert(card.key, (player, Zone::Hand)),
        ensures
            new.piles_match(),
    {
        let d = old.deck(player as int);
        assert(d.to_set().contains(card)) by {
            assert(d[d.len() - 1] == card);
        }
        assert(old.location(card) == Some((player, Zone::Deck)));
        assert(!old.hand(player as int).to_set().contains(card));
        Field::lemma_push_new(old.hand(player as int), card);
        assert(Field::without(d, card) == d.drop_last()) by {
            Field::lemma_without(d, card);
            assert(d.drop_last().no_duplicates()) by {
                assert forall|i: int, j: int| 0 <= i < d.len() - 1 && 0 <= j < d.len() - 1 && i != j implies d.drop_last()[i]
                    != d.drop_last()[j] by {
                    assert(d.drop_last()[i] == d[i] && d.drop_last()[j] == d[j]);
                }
            }
            reveal_with_fuel(Seq::filter, 1);
            assert(!d.drop_last().contains(card)) by {
                if d.drop_last().contains(card) {
                    let i = choose|i: int| 0 <= i < d.len() - 1 && d.drop_last()[i] == card;
                    assert(d[i] == d[d.len() - 1]);
                }
            }
            Field::lemma_without_absent(d.drop_last(), card);
        }
        Field::lemma_without(d, card);
        assert forall|c: CardId| #[trigger] new.location(c) == if c == card {
            Some((player, Zone::Hand))
        } else {
            old.location(c)
        } by {
            if c.key == card.key {
                assert(c == card);
            }
        }
        assert forall|p: int| 0 <= p < 2 implies {
            &&& new.deck(p).no_duplicates()
            &&& new.deck(p).to_set() == new.located(p as usize, Zone::Deck)
            &&& new.hand(p).no_duplicates()
            &&& new.hand(p).to_set() == new.located(p as usize, Zone::Hand)
        } by {
            if p != player {
                assert(p == 1 - player);
            }
            assert(new.deck(p).to_set() =~= new.located(p as usize, Zone::Deck));
            assert(new.hand(p).to_set() =~= new.located(p as usize, Zone::Hand));
        }
    }

    /// Taking out a card a pile does not hold leaves the pile as it is.
    proof fn lemma_without_absent(pile: Seq<CardId>, card: CardId)
        requires
            !pile.contains(card),
        ensures
            Field::without(pile, card) == pile,
        decreases pile.len(),
    {
        reveal_with_fuel(Seq::filter, 1);
        if pile.len() > 0 {
            assert(!pile.drop_last().contains(card)) by {
                if pile.drop_last().contains(card) {
                    let i = choose|i: int| 0 <= i < pile.len() - 1 && pile.drop_last()[i] == card;
                    assert(pile[i] == card);
                }
            }
            Field::lemma_without_absent(pile.drop_last(), card);
            assert(pile.last() != card) by {
                assert(pile[pile.len() - 1] == pile.last());
            }
            assert(pile.drop_last().push(pile.last()) =~= pile);
        } else {
            assert(Field::without(pile, card) =~= pile);
        }
    }

    /// Moving a card keeps the piles matching the locations, whatever its
    /// source and destination, so the deck and hand counts stay right.
    pub proof fn lemma_send_keeps_piles(old: &Field, new: &Field, card: CardId, zone: Zone)
        requires
            old.piles_match(),
            old.after_send(new, card, zone),
        ensures
            new.piles_match(),
    {
        let sp = old.send_player(card);
        assert forall|p: int| 0 <= p < 2 implies {
            &&& new.deck(p).no_duplicates()
            &&& new.deck(p).to_set() == new.located(p as usize, Zone::Deck)
            &&& new.hand(p).no_duplicates()
            &&& new.hand(p).to_set() == new.located(p as usize, Zone::Hand)
        } by {
            Field::lemma_send_pile(old, new, card, zone, p, Zone::Deck, old.deck(p), new.deck(p));
            Field::lemma_send_pile(old, new, card, zone, p, Zone::Hand, old.hand(p), new.hand(p));
        }
    }

    /// One pile after a move (see [`Field::lemma_send_keeps_piles`]).
    proof fn lemma_send_pile(
        old: &Field,
        new: &Field,
        card: CardId,
        zone: Zone,
        p: int,
        kind: Zone,
        before: Seq<CardId>,
        after: Seq<CardId>,
    )
        requires
            0 <= p < 2,
            before.no_duplicates(),
            before.to_set() == old.located(p as usize, kind),
            new.locs() == old.locs().insert(card.key, (old.send_player(card), zone)),
            after == old.pile_after_send(before, p, kind, card, zone),
        ensures
            after.no_duplicates(),
            after.to_set() == new.located(p as usize, kind),
    {
        let left = if old.location(card) == Some((p as usize, kind)) {
            Field::without(before, card)
        } else {
            before
        };
        assert(left.no_duplicates() && left.to_set() == before.to_set().remove(card)) by {
            if old.location(card) == Some((p as usize, kind)) {
                Field::lemma_without(before, card);
            } else {
                assert(!old.located(p as usize, kind).contains(card));
                assert(before.to_set() =~= before.to_set().remove(card));
            }
        }
        assert forall|c: CardId| #[trigger] new.location(c) == if c == card {
            Some((old.send_player(card), zone))
        } else {
            old.location(c)
        } by {
            if c.key == card.key {
                assert(c == card);
            }
        }
        if zone == kind && old.send_player(card) == p {
            Field::lemma_push_new(left, card);
            assert(after.to_set() =~= new.located(p as usize, kind));
        } else {
            assert(after.to_set() =~= new.located(p as usize, kind));
        }
    }

    /// Move a card to a new zone, keeping the player whose zone it was in
    /// (player 0 if it was never placed). It leaves its old pile first and,
    /// sent to a deck or a hand, joins the end of that pile, so the deck and
    /// hand counts stay right.
    pub fn send_to(&mut self, card: CardId, zone: Zone)
        requires
            old(self).wf(),
            old(self).can_send(card, zone),
        ensures
            final(self).wf(),
            old(self).after_send(final(self), card, zone),
            old(self).piles_match() ==> final(self).piles_match(),
    {
        let owner = match self.owner_of(card) {
            Some(o) => o,
            None => 0,
        };
        let ghost f0 = *self;
        self.remove_from_pile(card);
        let ghost f1 = *self;
        match zone {
            Zone::Deck => self.decks[owner].push(card),
            Zone::Hand => self.hands[owner].push(card),
            _ => {},
        }
        let ghost f2 = *self;
        assert forall|p: int| 0 <= p < 2 implies f2.deck(p) == f0.pile_after_send(
            f0.deck(p),
            p,
            Zone::Deck,
            card,
            zone,
        ) && f2.hand(p) == f0.pile_after_send(f0.hand(p), p, Zone::Hand, card, zone) by {
            assert(f0.send_player(card) == owner);
            if zone == Zone::Deck && p == owner {
                assert(f2.deck(p) == f1.deck(p).push(card));
                assert(f2.hand(p) == f1.hand(p));
            } else if zone == Zone::Hand && p == owner {
                assert(f2.hand(p) == f1.hand(p).push(card));
                assert(f2.deck(p) == f1.deck(p));
            } else {
                assert(f2.deck(p) == f1.deck(p));
                assert(f2.hand(p) == f1.hand(p));
            }
        }
        self.place(owner, card, zone);
        proof {
            if old(self).piles_match() {
                Field::lemma_send_keeps_piles(&*old(self), &*self, card, zone);
            }
        }
    }

    /// Take every copy of `card` out of `pile`, keeping the order of the rest.
    fn remove_all(pile: &Vec<CardId>, card: CardId) -> (r: Vec<CardId>)
        ensures
            r@ == Field::without(pile@, card),
    {
        let mut r: Vec<CardId> = Vec::new();
        let mut i: usize = 0;
        while i < pile.len()
            invariant
                i <= pile@.len(),
                r@ == Field::without(pile@.take(i as int), card),
            decreases pile@.len() - i,
        {
            proof {
                assert(pile@.take(i as int + 1).drop_last() =~= pile@.take(i as int));
                reveal_with_fuel(Seq::filter, 1);
            }
            if pile[i] != card {
                r.push(pile[i]);
            }
            i = i + 1;
        }
        assert(pile@.take(i as int) =~= pile@);
        r
    }

    /// If the card currently lives in a deck or hand pile, pull it out.
    fn remove_from_pile(&mut self, card: CardId)
        requires
            old(self).wf(),
            old(self).pile_in_range(card),
        ensures
            final(self).wf(),
            final(self).locs() == old(self).locs(),
            forall|p: int|
                0 <= p < 2 ==> final(self).deck(p) == if old(self).location(card) == Some(
                    (p as usize, Zone::Deck),
                ) {
                    Field::without(old(self).deck(p), card)
                } else {
                    old(self).deck(p)
                },
            forall|p: int|
                0 <= p < 2 ==> final(self).hand(p) == if old(self).location(card) == Some(
                    (p as usize, Zone::Hand),
                ) {
                    Field::without(old(self).hand(p), card)
                } else {
                    old(self).hand(p)
                },
    {
        match self.lookup(card) {
            Some((owner, Zone::Deck)) => {
                let kept = Field::remove_all(&self.decks[owner], card);
                self.decks[owner] = kept;
            },
            Some((owner, Zone::Hand)) => {
                let kept = Field::remove_all(&self.hands[owner], card);
                self.hands[owner] = kept;
            },
            _ => {},
        }
    }

    /// `new` is `self` after `player` drew `drawn`, up to `count` cards off
    /// the top of their deck into their hand, top card first (see
    /// [`Field::draw`]).
    pub open spec fn drew(&self, new: &Field, player: usize, count: int, drawn: Seq<CardId>) -> bool {
        let d = self.deck(player as int);
        let n = drawn.len();
        &&& n == min_count(count, d.len() as int)
        &&& forall|i: int| 0 <= i < n ==> drawn[i] == d[d.len() - 1 - i]
        &&& new.deck(player as int) == d.take(d.len() - n)
        &&& new.hand(player as int) == self.hand(player as int) + drawn
        &&& new.locs() == place_all(self.locs(), drawn, (player, Zone::Hand))
        &&& new.deck(1 - player) == self.deck(1 - player)
        &&& new.hand(1 - player) == self.hand(1 - player)
    }

    /// Drawing `a` cards and then `b` more draws the same cards, in the same
    /// order, and leaves the same piles and locations, as drawing `a + b` at
    /// once.
    pub proof fn lemma_draw_twice(
        f0: &Field,
        f1: &Field,
        f2: &Field,
        player: usize,
        a: int,
        b: int,
        first: Seq<CardId>,
        second: Seq<CardId>,
    )
        requires
            player < 2,
            0 <= a,
            0 <= b,
            f0.drew(f1, player, a, first),
            f1.drew(f2, player, b, second),
        ensures
            f0.drew(f2, player, a + b, first + second),
    {
        let d = f0.deck(player as int);
        let d1 = f1.deck(player as int);
        let all = first + second;
        assert forall|i: int| 0 <= i < all.len() implies all[i] == d[d.len() - 1 - i] by {
            if i >= first.len() {
                assert(second[i - first.len()] == d1[d1.len() - 1 - (i - first.len())]);
            }
        }
        assert(d1.take(d1.len() - second.len()) =~= d.take(d.len() - all.len()));
        assert(f0.hand(player as int) + first + second =~= f0.hand(player as int) + all);
        lemma_place_all_concat(f0.locs(), first, second, (player, Zone::Hand));
    }

    /// A draw's outcome is fixed by the table it starts from: the same cards
    /// are drawn, and the piles and locations end the same.
    pub proof fn lemma_drew_unique(
        f: &Field,
        g1: &Field,
        g2: &Field,
        player: usize,
        count: int,
        d1: Seq<CardId>,
        d2: Seq<CardId>,
    )
        requires
            player < 2,
            f.drew(g1, player, count, d1),
            f.drew(g2, player, count, d2),
        ensures
            d1 == d2,
            g1.deck(0) == g2.deck(0),
            g1.deck(1) == g2.deck(1),
            g1.hand(0) == g2.hand(0),
            g1.hand(1) == g2.hand(1),
            g1.locs() == g2.locs(),
    {
        assert(d1 =~= d2);
        if player == 0 {
            assert(1 - player == 1);
        } else {
            assert(1 - player == 0);
        }
    }

    /// Put `card` at the bottom of `player`'s deck pile (the front; draws
    /// come off the other end) and record it there.
    pub fn add_to_deck(&mut self, player: usize, card: CardId)
        requires
            old(self).wf(),
            player < 2,
        ensures
            final(self).wf(),
            final(self).locs() == old(self).locs().insert(card.key, (player, Zone::Deck)),
            final(self).deck(player as int) == seq![card] + old(self).deck(player as int),
            final(self).deck(1 - player) == old(self).deck(1 - player),
            final(self).hand(0) == old(self).hand(0),
            final(self).hand(1) == old(self).hand(1),            old(self).piles_match() && old(self).location(card) is None ==> final(self).piles_match(),
    {
        proof {
            assert(old(self).deck(player as int).insert(0, card) =~= seq![card] + old(self).deck(
                player as int,
            ));
        }
        self.decks[player].insert(0, card);
        self.place(player, card, Zone::Deck);
        proof {
            if old(self).piles_match() && old(self).location(card) is None {
                assert(!old(self).located(player, Zone::Deck).contains(card));
                Field::lemma_prepend_new(old(self).deck(player as int), card);
                Field::lemma_add_keeps_piles(&*old(self), &*self, player, card, Zone::Deck);
            }
        }
    }

    /// Put `card` at the end of `player`'s hand and record it there.
    pub fn add_to_hand(&mut self, player: usize, card: CardId)
        requires
            old(self).wf(),
            player < 2,
        ensures
            final(self).wf(),
            final(self).locs() == old(self).locs().insert(card.key, (player, Zone::Hand)),
            final(self).hand(player as int) == old(self).hand(player as int).push(card),
            final(self).hand(1 - player) == old(self).hand(1 - player),
            final(self).deck(0) == old(self).deck(0),
            final(self).deck(1) == old(self).deck(1),            old(self).piles_match() && old(self).location(card) is None ==> final(self).piles_match(),
    {
        self.hands[player].push(card);
        self.place(player, card, Zone::Hand);
        proof {
            if old(self).piles_match() && old(self).location(card) is None {
                assert(!old(self).located(player, Zone::Hand).contains(card));
                Field::lemma_push_new(old(self).hand(player as int), card);
                Field::lemma_add_keeps_piles(&*old(self), &*self, player, card, Zone::Hand);
            }
        }
    }

    /// Draw `count` cards off the top of `player`'s deck into their hand,
    /// returning them in draw order. Stops early on an empty deck, so the
    /// result may be shorter than `count`.
    pub fn draw(&mut self, player: usize, count: usize) -> (drawn: Vec<CardId>)
        requires
            old(self).wf(),
            player < 2,
        ensures
            final(self).wf(),
            old(self).drew(final(self), player, count as int, drawn@),
            drawn@.len() == min_count(count as int, old(self).deck(player as int).len() as int),
            forall|i: int|
                0 <= i < drawn@.len() ==> drawn@[i] == old(self).deck(player as int)[old(
                    self,
                ).deck(player as int).len() - 1 - i],
            final(self).deck(player as int) == old(self).deck(player as int).take(
                old(self).deck(player as int).len() - drawn@.len(),
            ),
            final(self).hand(player as int) == old(self).hand(player as int) + drawn@,
            final(self).locs() == place_all(old(self).locs(), drawn@, (player, Zone::Hand)),
            final(self).deck(1 - player) == old(self).deck(1 - player),
            final(self).hand(1 - player) == old(self).hand(1 - player),
            old(self).piles_match() ==> final(self).piles_match(),
    {
        let ghost d0 = self.deck(player as int);
        let ghost h0 = self.hand(player as int);
        let ghost l0 = self.locs();
        let mut drawn: Vec<CardId> = Vec::new();
        let mut n: usize = 0;
        while n < count
            invariant
                self.wf(),
                player < 2,
                n <= count,
                n == drawn@.len(),
                n <= d0.len(),
                forall|i: int| 0 <= i < n ==> drawn@[i] == d0[d0.len() - 1 - i],
                self.deck(player as int) == d0.take(d0.len() - n),
                self.hand(player as int) == h0 + drawn@,
                self.locs() == place_all(l0, drawn@, (player, Zone::Hand)),
                self.deck(1 - player) == old(self).deck(1 - player),
                self.hand(1 - player) == old(self).hand(1 - player),
                old(self).piles_match() ==> self.piles_match(),
            ensures
                n == count || n == d0.len(),
            decreases count - n,
        {
            let ghost s0 = *self;
            let top = self.decks[player].pop();
            match top {
                Some(card) => {
                    assert(self.deck(player as int) =~= d0.take(d0.len() - n - 1));
                    let ghost before = drawn@;
                    let ghost s1 = *self;
                    self.add_to_hand(player, card);
                    proof {
                        if old(self).piles_match() {
                            assert(s1.locs() == s0.locs());
                            Field::lemma_draw_one_keeps_piles(&s0, &*self, player, card);
                        }
                    }
                    drawn.push(card);
                    n = n + 1;
                    assert(drawn@.drop_last() =~= before);
                    assert(self.hand(player as int) =~= h0 + drawn@);
                },
                None => {
                    assert(d0.take(d0.len() - n).len() == 0);
                    proof {
                        assert(self.deck(player as int) == s0.deck(player as int));
                        assert(self.hand(player as int) == s0.hand(player as int));
                        assert(self.locs() == s0.locs());
                        if old(self).piles_match() {
                            assert forall|p: int| 0 <= p < 2 implies {
                                &&& self.deck(p).no_duplicates()
                                &&& self.deck(p).to_set() == self.located(p as usize, Zone::Deck)
                                &&& self.hand(p).no_duplicates()
                                &&& self.hand(p).to_set() == self.located(p as usize, Zone::Hand)
                            } by {
                                if p != player {
                                    assert(p == 1 - player);
                                }
                                assert(self.located(p as usize, Zone::Deck) =~= s0.located(p as usize, Zone::Deck));
                                assert(self.located(p as usize, Zone::Hand) =~= s0.located(p as usize, Zone::Hand));
                            }
                        }
                    }
                    break;
                },
            }
        }
        drawn
    }

    /// How many cards are in `player`'s deck.
    pub fn deck_count(&self, player: usize) -> (n: usize)
        requires
            player < 2,
        ensures
            n == self.deck(player as int).len(),
    {
        self.decks[player].len()
    }

    /// How many cards are in `player`'s hand.
    pub fn hand_count(&self, player: usize) -> (n: usize)
        requires
            player < 2,
        ensures
            n == self.hand(player as int).len(),
    {
        self.hands[player].len()
    }

    /// The card at a given slot in `player`'s hand, if any.
    pub fn hand_card(&self, player: usize, index: usize) -> (c: Option<CardId>)
        requires
            player < 2,
        ensures
            c == if index < self.hand(player as int).len() {
                Some(self.hand(player as int)[index as int])
            } else {
                None::<CardId>
            },
    {
        if index < self.hands[player].len() {
            Some(self.hands[player][index])
        } else {
            None
        }
    }

    /// Whether `card` is in `player`'s `zone`.
    pub fn contains(&self, player: usize, card: CardId, zone: Zone) -> (b: bool)
        requires
            self.wf(),
        ensures
            b == (self.location(card) == Some((player, zone))),
    {
        match self.lookup(card) {
            Some(l) => l.0 == player && l.1 == zone,
            None => false,
        }
    }

    /// The cards in `player`'s `zone`, in id order.
    pub fn cards_in(&self, player: usize, zone: Zone) -> (r: Vec<CardId>)
        requires
            self.wf(),
        ensures
            r@ == self.cards_at(player, zone),
    {
        let mut r: Vec<CardId> = Vec::new();
        let mut i: usize = 0;
        while i < self.spots.len()
            invariant
                i <= self.spots@.len(),
                r@ == keys_at(self.spots@.take(i as int), player, zone),
            decreases self.spots@.len() - i,
        {
            assert(self.spots@.take(i as int + 1).drop_last() =~= self.spots@.take(i as int));
            if self.spots[i].player == player && self.spots[i].zone == zone {
                r.push(CardId { key: self.spots[i].key });
            }
            i = i + 1;
        }
        assert(self.spots@.take(i as int) =~= self.spots@);
        r
    }

    /// The cards in `player`'s Monster Zone, in id order.
    pub fn monster_zone(&self, player: usize) -> (r: Vec<CardId>)
        requires
            self.wf(),
        ensures
            r@ == self.cards_at(player, Zone::MonsterZone),
    {
        self.cards_in(player, Zone::MonsterZone)
    }
}

} // verus!
