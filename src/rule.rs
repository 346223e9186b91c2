use vstd::prelude::*;
use crate::automaton::NodeState;
use crate::config::CardEffectsStruct;

verus! {

/// What a rule module declares of itself: its identity and the action
/// paths and card effects it contributes while active.
pub struct RuleData {
    pub name: String,
    pub author: Option<String>,
    pub description: Option<String>,
    pub actions: Option<Vec<Vec<NodeState>>>,
    pub cards_effects: Option<CardEffectsStruct>,
}

impl RuleData {
    pub fn name(&self) -> (r: &str)
        ensures
            r@ == self.name@,
    {
        self.name.as_str()
    }
}

} // verus!
