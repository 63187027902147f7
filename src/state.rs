use crate::fields::Fields;
use crate::value::{Value, ValueView};
use vstd::prelude::*;

verus! {

/// A state of a problem: a mapping from field names to values, with no
/// implicit fields. Two states are equal exactly when their mappings are.
#[derive(Debug, PartialEq, Eq, Hash)]
pub struct State {
    fields: Fields,
}

impl View for State {
    type V = Map<Seq<char>, ValueView>;

    closed spec fn view(&self) -> Map<Seq<char>, ValueView> {
        self.fields@
    }
}

impl Clone for State {
    fn clone(&self) -> (r: State)
        ensures
            r@ == self@,
    {
        State { fields: self.fields.clone() }
    }
}

impl State {
    /// A state with no fields.
    pub fn new() -> (r: State)
        ensures
            r@ == Map::<Seq<char>, ValueView>::empty(),
    {
        State { fields: Fields::new() }
    }

    /// Sets the field `key` to `value`, replacing what it held.
    pub fn insert_field(&mut self, key: String, value: Value)
        ensures
            final(self)@ == old(self)@.insert(key@, value@),
    {
        self.fields.insert(key, value);
    }

    /// The value of the field `key`, if the state has one; a missing field is
    /// an ordinary answer.
    pub fn get_field(&self, key: &str) -> (r: Option<&Value>)
        ensures
            r.is_some() == self@.contains_key(key@),
            r.is_some() ==> r.unwrap()@ == self@[key@],
    {
        self.fields.get(key)
    }
}

} // verus!
