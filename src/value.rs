use std::collections::BTreeMap;
use vstd::prelude::*;

verus! {

/// A grid coordinate.
#[derive(Debug, Clone, Copy, PartialEq, Eq, Hash, Structural)]
pub struct Position {
    pub x: i32,
    pub y: i32,
}

impl Position {
    pub fn new(x: i32, y: i32) -> (r: Position)
        ensures
            r.x == x,
            r.y == y,
    {
        Position { x, y }
    }
}

/// A typed value stored under a field name of a state, or under a parameter
/// name of an action. The set of variants is closed: a domain inspects a value
/// by matching on it.
#[derive(Debug, PartialEq, Eq, Hash)]
pub enum Value {
    Int(i32),
    Text(String),
    Bool(bool),
    IntArray(Vec<i32>),
    Positions(BTreeMap<String, Position>),
    MapToVecString(BTreeMap<String, Vec<String>>),
    MapToString(BTreeMap<String, String>),
    MapToInt(BTreeMap<String, i32>),
}

/// What a value is, as a mathematical value.
pub enum ValueView {
    Int(i32),
    Text(Seq<char>),
    Bool(bool),
    IntArray(Seq<i32>),
    Positions(Map<String, Position>),
    MapToVecString(Map<String, Vec<String>>),
    MapToString(Map<String, String>),
    MapToInt(Map<String, i32>),
}

impl View for Value {
    type V = ValueView;

    open spec fn view(&self) -> ValueView {
        match self {
            Value::Int(x) => ValueView::Int(*x),
            Value::Text(s) => ValueView::Text(s@),
            Value::Bool(b) => ValueView::Bool(*b),
            Value::IntArray(v) => ValueView::IntArray(v@),
            Value::Positions(m) => ValueView::Positions(m@),
            Value::MapToVecString(m) => ValueView::MapToVecString(m@),
            Value::MapToString(m) => ValueView::MapToString(m@),
            Value::MapToInt(m) => ValueView::MapToInt(m@),
        }
    }
}

impl Clone for Value {
    fn clone(&self) -> (r: Value)
        ensures
            r@ == self@,
    {
        match self {
            Value::Int(x) => Value::Int(*x),
            Value::Text(s) => Value::Text(s.clone()),
            Value::Bool(b) => Value::Bool(*b),
            Value::IntArray(v) => {
                let c = v.clone();
                assert(c@ =~= v@);
                Value::IntArray(c)
            },
            Value::Positions(m) => Value::Positions(m.clone()),
            Value::MapToVecString(m) => Value::MapToVecString(m.clone()),
            Value::MapToString(m) => Value::MapToString(m.clone()),
            Value::MapToInt(m) => Value::MapToInt(m.clone()),
        }
    }
}

} // verus!
