use vstd::prelude::*;
use crate::card::Card;
use crate::error::Error;

verus! {

/// Opaque bytes a rule module keeps between calls.
#[derive(Debug)]
pub struct DataStorageType(pub Vec<u8>);

/// The name of the rule module that owns a slot of data.
#[derive(Debug)]
pub struct DataKey(pub String);

/// Per-rule private data slots, keyed by rule name.
#[derive(Debug)]
pub struct Data {
    data: Vec<(DataKey, DataStorageType)>,
}

impl Data {
    pub closed spec fn keys(&self) -> Seq<Seq<char>> {
        self.data@.map_values(|e: (DataKey, DataStorageType)| e.0.0@)
    }

    pub closed spec fn slot(&self, i: int) -> Seq<u8> {
        self.data@[i].1.0@
    }

    pub fn new() -> (r: Self)
        ensures
            r.keys().len() == 0,
    {
        Data { data: Vec::new() }
    }

    /// The slot of the rule `rule_name`, if it has one.
    pub fn get_rule_data(&self, rule_name: &DataKey) -> (r: Option<&DataStorageType>)
        ensures
            r is None <==> !self.keys().contains(rule_name.0@),
            r matches Some(d) ==> exists|i: int|
                0 <= i < self.keys().len() && self.keys()[i] == rule_name.0@ && d.0@ == self.slot(i),
    {
        let mut i: usize = 0;
        while i < self.data.len()
            invariant
                i <= self.data@.len(),
                forall|j: int| 0 <= j < i ==> self.keys()[j] != rule_name.0@,
            decreases self.data@.len() - i,
        {
            if self.data[i].0.0.eq(&rule_name.0) {
                assert(self.keys()[i as int] == rule_name.0@);
                assert(self.slot(i as int) == self.data@[i as int].1.0@);
                return Some(&self.data[i].1);
            }
            i = i + 1;
        }
        assert forall|j: int| 0 <= j < self.keys().len() implies self.keys()[j] != rule_name.0@ by {}
        None
    }

    /// Gives the rule `rule_name` an empty slot if it has none.
    pub fn get_or_insert_rule_data(&mut self, rule_name: DataKey)
        ensures
            final(self).keys().contains(rule_name.0@),
            old(self).keys().contains(rule_name.0@) ==> final(self).keys() == old(self).keys(),
            !old(self).keys().contains(rule_name.0@) ==> final(self).keys() == old(self).keys().push(rule_name.0@),
    {
        let found = self.get_rule_data(&rule_name).is_some();
        if !found {
            let ghost k = rule_name.0@;
            self.data.push((rule_name, DataStorageType(Vec::new())));
            assert(self.keys() =~= old(self).keys().push(k));
            assert(self.keys()[self.keys().len() - 1] == k);
        }
    }
}

/// A player: a display name, a hand, and per-rule data.
#[derive(Debug)]
pub struct Player {
    pseudo: String,
    hand: Vec<Card>,
    player_data: Data,
}

impl Player {
    pub closed spec fn pseudo_view(&self) -> Seq<char> {
        self.pseudo@
    }

    pub closed spec fn hand_view(&self) -> Seq<Card> {
        self.hand@
    }

    pub fn new(pseudo: String, hand: Vec<Card>) -> (r: Self)
        ensures
            r.pseudo_view() == pseudo@,
            r.hand_view() == hand@,
            r.data_view().keys().len() == 0,
    {
        Player { pseudo, hand, player_data: Data::new() }
    }

    pub fn get_pseudo(&self) -> (r: String)
        ensures
            r@ == self.pseudo_view(),
    {
        self.pseudo.clone()
    }

    pub fn get_cards(&self) -> (r: &Vec<Card>)
        ensures
            r@ == self.hand_view(),
    {
        &self.hand
    }

    /// Adds a card to the hand.
    pub fn add_card(&mut self, card: Card)
        ensures
            final(self).hand_view() == old(self).hand_view().push(card),
            final(self).pseudo_view() == old(self).pseudo_view(),
    {
        self.hand.push(card);
    }

    /// Adds cards to the hand, in order.
    pub fn add_cards(&mut self, cards: Vec<Card>)
        ensures
            final(self).hand_view() == old(self).hand_view() + cards@,
            final(self).pseudo_view() == old(self).pseudo_view(),
    {
        let mut cards = cards;
        self.hand.append(&mut cards);
    }

    /// Empties the hand.
    pub fn clear_cards(&mut self)
        ensures
            final(self).hand_view().len() == 0,
            final(self).pseudo_view() == old(self).pseudo_view(),
    {
        self.hand = Vec::new();
    }

    /// Takes the card at `card_index` out of the hand.
    pub fn remove_card(&mut self, card_index: usize) -> (r: Result<Card, Error>)
        ensures
            card_index < old(self).hand_view().len() ==> r == Ok::<Card, Error>(old(self).hand_view()[card_index as int])
                && final(self).hand_view() == old(self).hand_view().remove(card_index as int),
            card_index >= old(self).hand_view().len() ==> (r matches Err(Error::InvalidCardIndex { card_index: i, len })
                && i == card_index && len == old(self).hand_view().len()) && final(self).hand_view() == old(self).hand_view(),
            final(self).pseudo_view() == old(self).pseudo_view(),
    {
        if card_index >= self.hand.len() {
            Err(Error::InvalidCardIndex { card_index, len: self.hand.len() })
        } else {
            Ok(self.hand.remove(card_index))
        }
    }

    /// The card at `card_index` in the hand.
    pub fn get_card(&self, card_index: usize) -> (r: Result<&Card, Error>)
        ensures
            card_index < self.hand_view().len() ==> r == Ok::<&Card, Error>(&self.hand_view()[card_index as int]),
            card_index >= self.hand_view().len() ==> (r matches Err(Error::InvalidCardIndex { card_index: i, len })
                && i == card_index && len == self.hand_view().len()),
    {
        if card_index >= self.hand.len() {
            Err(Error::InvalidCardIndex { card_index, len: self.hand.len() })
        } else {
            Ok(&self.hand[card_index])
        }
    }

    pub closed spec fn data_view(&self) -> Data {
        self.player_data
    }

    pub fn data(&self) -> (r: &Data)
        ensures
            *r == self.data_view(),
    {
        &self.player_data
    }
}

} // verus!
