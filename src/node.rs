use crate::action::Action;
use crate::state::State;
use vstd::prelude::*;

verus! {

/// A node of the search tree. `action` produced it from its `parent` (both
/// absent at the root); `cost` is the total cost of the actions from the root.
#[derive(Debug, Clone, PartialEq)]
pub struct Node {
    pub state: State,
    pub parent: Option<usize>,
    pub children: Vec<usize>,
    pub action: Option<Action>,
    pub cost: i128,
}

impl Node {
    /// A root-shaped node holding `state`: no parent, no children, no action,
    /// cost 0.
    pub fn new_empty(state: State) -> (r: Node)
        ensures
            r.state == state,
            r.parent is None,
            r.children@.len() == 0,
            r.action is None,
            r.cost == 0,
    {
        Node { state, parent: None, children: Vec::new(), action: None, cost: 0 }
    }
}

} // verus!
