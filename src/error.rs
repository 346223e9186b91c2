use vstd::prelude::*;
use crate::action::PlayerAction;
use crate::stack::StackType;

verus! {

/// Description of a failure met while loading or checking a rule module.
#[derive(Debug)]
pub struct DmDescription(pub String);

/// Hard errors: the requested operation is abandoned.
#[allow(inconsistent_fields)]
#[derive(Debug)]
pub enum Error {
    RuleNotValid { desc: DmDescription },
    NotEnoughCardsForInitilization,
    InvalidConfig { desc: String },
    DlOpen2 { desc: DmDescription },
    RuleNotFound { desc: DmDescription },
    NoStackAvailable { stacks: Vec<StackType> },
    NotEnoughCards,
    GivenSliceEmpty,
    InvalidCardIndex { card_index: usize, len: usize },
    InvalidStackIndex { stack_index: usize, len: usize },
    InvalidPlayerIndex { player_index: usize, len: usize },
    InvalidRuleIndex { rule_index: usize, len: usize },
    FunctionNotFound { rule_name: String, func_name: String },
    MissingRequestCallbacks(Vec<String>),
    InvalidRequestResponse,
    InvalidMaoInteraction { expected: Vec<PlayerAction>, received: Vec<PlayerAction> },
    OnMaoInteraction(String),
    /// A disambiguation index beyond the candidates offered.
    InvalidInteractionIndex { index: usize, len: usize },
    /// A path whose steps do not have the shape of an action path.
    InvalidActionPath,
    /// A leaf equal in token and owning rule to one already under the same branch.
    DuplicateLeaf,
    InvalidExpectingValue(String),
    RuleAlreadyActivated { rule_name: String },
    RuleNotActivated { rule_name: String },
}

} // verus!
