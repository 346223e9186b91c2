use vstd::prelude::*;
use crate::card::Card;

verus! {

/// A card movement: the card, where it was in the hand, who moved it and
/// on which stack (a new stack when none).
#[derive(Debug)]
pub struct CardEvent {
    pub played_card: Card,
    pub card_index: usize,
    pub player_index: usize,
    pub stack_index: Option<usize>,
}

impl CardEvent {
    pub fn new(card: Card, player_index: usize, stack_index: Option<usize>, card_index: usize) -> (r: Self)
        ensures
            r.played_card == card,
            r.player_index == player_index,
            r.stack_index == stack_index,
            r.card_index == card_index,
    {
        CardEvent { played_card: card, player_index, stack_index, card_index }
    }
}

impl Clone for CardEvent {
    fn clone(&self) -> (r: Self)
        ensures
            r == *self,
    {
        CardEvent {
            played_card: self.played_card.clone(),
            card_index: self.card_index,
            player_index: self.player_index,
            stack_index: self.stack_index,
        }
    }
}

/// The index of a player's hand or of a stack.
#[derive(Debug, Clone, Copy, PartialEq, Eq, Structural)]
pub enum StackTarget {
    Player(usize),
    Stack(usize),
}

/// Something that happened in the game.
#[derive(Debug)]
pub enum MaoEvent {
    PlayedCardEvent(CardEvent),
    DiscardCardEvent(CardEvent),
    DrawedCardEvent(CardEvent),
    GiveCardEvent { card: Card, from_player_index: usize, target: StackTarget },
    StackPropertyRunsOut { empty_stack_index: StackTarget },
    GameStart,
    /// The occurrences of a turn that just closed.
    EndPlayerTurn { events: Vec<MaoEvent> },
    PlayerPenality { player_target: usize },
    VerifyEvent,
    SayEvent { message: String, player_index: usize },
    PhysicalEvent { physical_name: String, player_index: usize },
}

/// Whether an occurrence goes into the per-turn log: bookkeeping
/// occurrences do not, to avoid feedback.
pub open spec fn recordable(e: MaoEvent) -> bool {
    !(e is GameStart || e is VerifyEvent || e is StackPropertyRunsOut || e is EndPlayerTurn
        || e is PlayerPenality)
}

/// Plays and draws end a turn.
pub open spec fn changes_turn(e: MaoEvent) -> bool {
    e is PlayedCardEvent || e is DrawedCardEvent
}

/// The player an occurrence is about, for card, say and physical occurrences.
pub open spec fn event_player(e: MaoEvent) -> Option<usize> {
    match e {
        MaoEvent::PlayedCardEvent(c) => Some(c.player_index),
        MaoEvent::DiscardCardEvent(c) => Some(c.player_index),
        MaoEvent::DrawedCardEvent(c) => Some(c.player_index),
        MaoEvent::SayEvent { player_index, .. } => Some(player_index),
        MaoEvent::PhysicalEvent { player_index, .. } => Some(player_index),
        _ => None,
    }
}

impl MaoEvent {
    pub fn is_recordable(&self) -> (r: bool)
        ensures
            r == recordable(*self),
    {
        match self {
            MaoEvent::GameStart | MaoEvent::VerifyEvent | MaoEvent::StackPropertyRunsOut { .. }
            | MaoEvent::EndPlayerTurn { .. } | MaoEvent::PlayerPenality { .. } => false,
            _ => true,
        }
    }

    pub fn can_change_turn(&self) -> (r: bool)
        ensures
            r == changes_turn(*self),
    {
        match self {
            MaoEvent::PlayedCardEvent(_) | MaoEvent::DrawedCardEvent(_) => true,
            _ => false,
        }
    }

    /// The player the occurrence is about, if any.
    pub fn player(&self) -> (r: Option<usize>)
        ensures
            r == event_player(*self),
    {
        match self {
            MaoEvent::PlayedCardEvent(c) => Some(c.player_index),
            MaoEvent::DiscardCardEvent(c) => Some(c.player_index),
            MaoEvent::DrawedCardEvent(c) => Some(c.player_index),
            MaoEvent::SayEvent { player_index, .. } => Some(*player_index),
            MaoEvent::PhysicalEvent { player_index, .. } => Some(*player_index),
            _ => None,
        }
    }

    /// The card a card occurrence is about.
    pub fn get_card(&self) -> (r: Option<&Card>)
        requires
            !(*self is VerifyEvent),
        ensures
            match *self {
                MaoEvent::PlayedCardEvent(c) => r == Some(&c.played_card),
                MaoEvent::DiscardCardEvent(c) => r == Some(&c.played_card),
                MaoEvent::DrawedCardEvent(c) => r == Some(&c.played_card),
                MaoEvent::GiveCardEvent { card, .. } => r == Some(&card),
                _ => r is None,
            },
    {
        match self {
            MaoEvent::PlayedCardEvent(e) => Some(&e.played_card),
            MaoEvent::DiscardCardEvent(e) => Some(&e.played_card),
            MaoEvent::DrawedCardEvent(e) => Some(&e.played_card),
            MaoEvent::GiveCardEvent { card, .. } => Some(card),
            _ => None,
        }
    }
}

impl Clone for MaoEvent {
    fn clone(&self) -> (r: Self)
        ensures
            !(*self is EndPlayerTurn) ==> r == *self,
            *self is EndPlayerTurn ==> r is EndPlayerTurn,
        decreases self,
    {
        match self {
            MaoEvent::PlayedCardEvent(c) => MaoEvent::PlayedCardEvent(c.clone()),
            MaoEvent::DiscardCardEvent(c) => MaoEvent::DiscardCardEvent(c.clone()),
            MaoEvent::DrawedCardEvent(c) => MaoEvent::DrawedCardEvent(c.clone()),
            MaoEvent::GiveCardEvent { card, from_player_index, target } => MaoEvent::GiveCardEvent {
                card: card.clone(),
                from_player_index: *from_player_index,
                target: *target,
            },
            MaoEvent::StackPropertyRunsOut { empty_stack_index } => MaoEvent::StackPropertyRunsOut {
                empty_stack_index: *empty_stack_index,
            },
            MaoEvent::GameStart => MaoEvent::GameStart,
            MaoEvent::EndPlayerTurn { events } => {
                let mut out: Vec<MaoEvent> = Vec::new();
                let mut i: usize = 0;
                while i < events.len()
                    invariant
                        i <= events@.len(),
                        *self == (MaoEvent::EndPlayerTurn { events: *events }),
                    decreases events@.len() - i,
                {
                    proof {
                        broadcast use vstd::std_specs::vec::axiom_vec_index_decreases;
                        assert(decreases_to!(*self => (*self)->EndPlayerTurn_events));
                        assert(decreases_to!(*events => (*events)@));
                        assert(decreases_to!((*events)@ => (*events)@[i as int]));
                    }
                    out.push(events[i].clone());
                    i = i + 1;
                }
                MaoEvent::EndPlayerTurn { events: out }
            },
            MaoEvent::PlayerPenality { player_target } => MaoEvent::PlayerPenality { player_target: *player_target },
            MaoEvent::VerifyEvent => MaoEvent::VerifyEvent,
            MaoEvent::SayEvent { message, player_index } => MaoEvent::SayEvent {
                message: message.clone(),
                player_index: *player_index,
            },
            MaoEvent::PhysicalEvent { physical_name, player_index } => MaoEvent::PhysicalEvent {
                physical_name: physical_name.clone(),
                player_index: *player_index,
            },
        }
    }
}

} // verus!
