use crate::fields::Fields;
use crate::value::ValueView;
use vstd::prelude::*;

verus! {

/// An immutable description of a transition: a name, an integer cost (any
/// sign) and named parameters.
#[derive(Debug, PartialEq, Eq, Hash)]
pub struct Action {
    pub name: String,
    pub cost: i32,
    pub parameters: Fields,
}

/// What an action is, as a mathematical value.
pub struct ActionView {
    pub name: Seq<char>,
    pub cost: int,
    pub parameters: Map<Seq<char>, ValueView>,
}

impl View for Action {
    type V = ActionView;

    open spec fn view(&self) -> ActionView {
        ActionView { name: self.name@, cost: self.cost as int, parameters: self.parameters@ }
    }
}

impl Clone for Action {
    fn clone(&self) -> (r: Action)
        ensures
            r@ == self@,
    {
        Action {
            name: self.name.clone(),
            cost: self.cost,
            parameters: self.parameters.clone(),
        }
    }
}

impl Action {
    pub fn new(name: String, cost: i32, parameters: Fields) -> (r: Action)
        ensures
            r.name == name,
            r.cost == cost,
            r.parameters == parameters,
    {
        Action { name, cost, parameters }
    }
}

} // verus!
