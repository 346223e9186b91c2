use vstd::prelude::*;
use crate::card::Card;
use crate::error::Error;

verus! {

/// Role of a stack; one stack may carry several.
#[derive(Debug, Clone, Copy, PartialEq, Eq, Structural, PartialOrd, Ord, Hash)]
pub enum StackType {
    Playable,
    Drawable,
    Discardable,
}

/// A stack of cards on the table; the top is the last card.
#[derive(Debug)]
pub struct Stack {
    cards: Vec<Card>,
    visible: bool,
    stack_type: Vec<StackType>,
}

impl Stack {
    pub closed spec fn cards_view(&self) -> Seq<Card> {
        self.cards@
    }

    pub closed spec fn types_view(&self) -> Seq<StackType> {
        self.stack_type@
    }

    pub closed spec fn is_visible(&self) -> bool {
        self.visible
    }

    pub fn new(cards: Vec<Card>, visible: bool, stack_type: Vec<StackType>) -> (r: Self)
        ensures
            r.cards_view() == cards@,
            r.is_visible() == visible,
            r.types_view() == stack_type@,
    {
        Stack { cards, visible, stack_type }
    }

    pub fn visible(&self) -> (r: bool)
        ensures
            r == self.is_visible(),
    {
        self.visible
    }

    pub fn set_visible(&mut self, visible: bool)
        ensures
            final(self).is_visible() == visible,
            final(self).cards_view() == old(self).cards_view(),
            final(self).types_view() == old(self).types_view(),
    {
        self.visible = visible;
    }

    /// `Some(t)` when the stack is visible.
    pub fn then_some<T>(&self, t: T) -> (r: Option<T>)
        ensures
            r == if self.is_visible() {
                Some(t)
            } else {
                None
            },
    {
        if self.visible {
            Some(t)
        } else {
            None
        }
    }

    /// `Some(f())` when the stack is visible.
    pub fn then<T, F: FnOnce() -> T>(&self, f: F) -> (r: Option<T>)
        requires
            f.requires(()),
        ensures
            self.is_visible() ==> (r matches Some(x) && f.ensures((), x)),
            !self.is_visible() ==> r is None,
    {
        if self.visible {
            Some(f())
        } else {
            None
        }
    }

    pub fn get_stack_types(&self) -> (r: &Vec<StackType>)
        ensures
            r@ == self.types_view(),
    {
        &self.stack_type
    }

    /// Whether the stack carries the role `t`.
    pub fn has_type(&self, t: StackType) -> (r: bool)
        ensures
            r == self.types_view().contains(t),
    {
        let mut i: usize = 0;
        while i < self.stack_type.len()
            invariant
                i <= self.stack_type@.len(),
                forall|j: int| 0 <= j < i ==> self.stack_type@[j] != t,
            decreases self.stack_type@.len() - i,
        {
            if self.stack_type[i] == t {
                return true;
            }
            i = i + 1;
        }
        false
    }

    pub fn get_cards(&self) -> (r: &Vec<Card>)
        ensures
            r@ == self.cards_view(),
    {
        &self.cards
    }

    /// The top card, if any.
    pub fn top(&self) -> (r: Option<&Card>)
        ensures
            self.cards_view().len() == 0 ==> r is None,
            self.cards_view().len() > 0 ==> r == Some(&self.cards_view().last()),
    {
        if self.cards.len() == 0 {
            None
        } else {
            Some(&self.cards[self.cards.len() - 1])
        }
    }

    /// Takes the top card, if any.
    pub fn draw_card(&mut self) -> (r: Option<Card>)
        ensures
            old(self).cards_view().len() == 0 ==> r is None && final(self).cards_view() == old(self).cards_view(),
            old(self).cards_view().len() > 0 ==> r == Some(old(self).cards_view().last())
                && final(self).cards_view() == old(self).cards_view().drop_last(),
            final(self).types_view() == old(self).types_view(),
            final(self).is_visible() == old(self).is_visible(),
    {
        self.cards.pop()
    }

    /// Puts a card on top.
    pub fn add_card(&mut self, card: Card)
        ensures
            final(self).cards_view() == old(self).cards_view().push(card),
            final(self).types_view() == old(self).types_view(),
            final(self).is_visible() == old(self).is_visible(),
    {
        self.cards.push(card);
    }

    /// Takes out the card at `card_index`.
    pub fn remove_card(&mut self, card_index: usize) -> (r: Result<Card, Error>)
        ensures
            card_index < old(self).cards_view().len() ==> r == Ok::<Card, Error>(old(self).cards_view()[card_index as int])
                && final(self).cards_view() == old(self).cards_view().remove(card_index as int),
            card_index >= old(self).cards_view().len() ==> (r matches Err(Error::InvalidCardIndex { card_index: i, len })
                && i == card_index && len == old(self).cards_view().len()) && final(self).cards_view() == old(self).cards_view(),
            final(self).types_view() == old(self).types_view(),
            final(self).is_visible() == old(self).is_visible(),
    {
        if card_index >= self.cards.len() {
            Err(Error::InvalidCardIndex { card_index, len: self.cards.len() })
        } else {
            Ok(self.cards.remove(card_index))
        }
    }

    /// The card at `card_index`.
    pub fn get_card(&self, card_index: usize) -> (r: Result<&Card, Error>)
        ensures
            card_index < self.cards_view().len() ==> r == Ok::<&Card, Error>(&self.cards_view()[card_index as int]),
            card_index >= self.cards_view().len() ==> (r matches Err(Error::InvalidCardIndex { card_index: i, len })
                && i == card_index && len == self.cards_view().len()),
    {
        if card_index >= self.cards.len() {
            Err(Error::InvalidCardIndex { card_index, len: self.cards.len() })
        } else {
            Ok(&self.cards[card_index])
        }
    }

    /// Takes every card out, bottom first.
    pub fn take_all(&mut self) -> (r: Vec<Card>)
        ensures
            r@ == old(self).cards_view(),
            final(self).cards_view().len() == 0,
            final(self).types_view() == old(self).types_view(),
            final(self).is_visible() == old(self).is_visible(),
    {
        let mut out: Vec<Card> = Vec::new();
        std::mem::swap(&mut out, &mut self.cards);
        out
    }

    /// Appends `cards` on top, in order.
    pub fn add_cards(&mut self, cards: Vec<Card>)
        ensures
            final(self).cards_view() == old(self).cards_view() + cards@,
            final(self).types_view() == old(self).types_view(),
            final(self).is_visible() == old(self).is_visible(),
    {
        let mut cards = cards;
        self.cards.append(&mut cards);
    }
}

} // verus!
