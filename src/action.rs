use vstd::prelude::*;
use crate::error::Error;
use crate::stack::StackType;

verus! {

/// The closed set of atomic interaction kinds.
#[derive(Debug, Clone, Copy, PartialEq, Eq, Structural, PartialOrd, Ord, Hash)]
pub enum PlayerAction {
    SelectCard,
    SelectPlayer,
    SelectPlayableStack,
    SelectDrawableStack,
    SelectDiscardableStack,
    SelectRule,
    DoAction,
}

impl Default for PlayerAction {
    fn default() -> (r: Self)
        ensures
            r == PlayerAction::SelectCard,
    {
        PlayerAction::SelectCard
    }
}

/// The selection token of a stack role.
pub open spec fn select_stack(t: StackType) -> PlayerAction {
    match t {
        StackType::Playable => PlayerAction::SelectPlayableStack,
        StackType::Drawable => PlayerAction::SelectDrawableStack,
        StackType::Discardable => PlayerAction::SelectDiscardableStack,
    }
}

impl From<StackType> for PlayerAction {
    fn from(value: StackType) -> (r: PlayerAction)
        ensures
            r == select_stack(value),
    {
        match value {
            StackType::Playable => PlayerAction::SelectPlayableStack,
            StackType::Drawable => PlayerAction::SelectDrawableStack,
            StackType::Discardable => PlayerAction::SelectDiscardableStack,
        }
    }
}

impl vstd::std_specs::convert::FromSpecImpl<StackType> for PlayerAction {
    open spec fn obeys_from_spec() -> bool {
        true
    }

    open spec fn from_spec(v: StackType) -> PlayerAction {
        select_stack(v)
    }
}

/// Payload of a committed step: an index or a string identifier.
#[derive(Debug)]
pub enum IdString {
    String(String),
    Index(usize),
}

impl Clone for IdString {
    fn clone(&self) -> (r: Self)
        ensures
            r == *self,
    {
        match self {
            IdString::String(s) => IdString::String(s.clone()),
            IdString::Index(i) => IdString::Index(*i),
        }
    }
}

impl IdString {
    /// The index held, or an error when a string is held.
    pub fn index_expecting(&self) -> (r: Result<usize, Error>)
        ensures
            match *self {
                IdString::Index(i) => r == Ok::<usize, Error>(i),
                IdString::String(_) => r matches Err(Error::InvalidExpectingValue(_)),
            },
    {
        match self {
            IdString::String(_) => Err(
                Error::InvalidExpectingValue("Expecting index found String".to_string()),
            ),
            IdString::Index(i) => Ok(*i),
        }
    }

    /// The string held, or an error when an index is held.
    pub fn string_expecting(&self) -> (r: Result<&str, Error>)
        ensures
            match *self {
                IdString::String(s) => r matches Ok(t) && t@ == s@,
                IdString::Index(_) => r matches Err(Error::InvalidExpectingValue(_)),
            },
    {
        match self {
            IdString::String(s) => Ok(s.as_str()),
            IdString::Index(_) => Err(
                Error::InvalidExpectingValue("Expecting string found index".to_string()),
            ),
        }
    }
}

/// One interaction step: its token and, once committed, its payload.
#[derive(Debug)]
pub struct MaoInteraction {
    pub data: Option<IdString>,
    pub action: PlayerAction,
}

impl Clone for MaoInteraction {
    fn clone(&self) -> (r: Self)
        ensures
            r == *self,
    {
        let data = match &self.data {
            Some(d) => Some(d.clone()),
            None => None,
        };
        MaoInteraction { data, action: self.action }
    }
}

impl Default for MaoInteraction {
    fn default() -> (r: Self)
        ensures
            r.data is None,
            r.action == PlayerAction::SelectCard,
    {
        MaoInteraction { data: None, action: PlayerAction::SelectCard }
    }
}

impl MaoInteraction {
    pub fn new(data: Option<IdString>, action: PlayerAction) -> (r: Self)
        ensures
            r.data == data,
            r.action == action,
    {
        MaoInteraction { data, action }
    }
}

} // verus!
