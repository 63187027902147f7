use crate::action::{Action, ActionView};
use crate::fields::Fields;
use crate::node::Node;
use crate::state::State;
use crate::value::{Value, ValueView};
use vstd::prelude::*;

verus! {

/// What a domain provides to the search: its actions, how an action changes
/// a state, which states are goals, and an estimate of the remaining cost.
/// The methods do not change their arguments; `apply_action` leaves a state
/// to which the action does not apply unchanged, and `heuristic` is never
/// negative.
pub trait Problem {
    fn create_initial_node(&self, initial_state: State) -> Node;

    fn get_possible_actions(&self, state: &State) -> Vec<Action>;

    fn apply_action(&self, state: &State, action: &Action) -> State;

    fn is_goal_state(&self, state: &State) -> bool;

    fn heuristic(&self, state: &State) -> u64;
}

/// The health a state of the simple domain must reach.
pub const GOAL_HEALTH: i32 = 100000;

/// The number of increments offered in every state of the simple domain.
pub const INCREMENTS: i32 = 10;

/// The estimate divides the missing health by this.
pub const HEALTH_PER_STEP: i32 = 5;

/// The health recorded in a state, if it holds an integer there.
pub open spec fn health_of(s: Map<Seq<char>, ValueView>) -> Option<i32> {
    if s.contains_key("health"@) {
        match s["health"@] {
            ValueView::Int(h) => Some(h),
            _ => None,
        }
    } else {
        None
    }
}

/// The amount an action adds, if it carries an integer one.
pub open spec fn amount_of(a: ActionView) -> Option<i32> {
    if a.parameters.contains_key("amount"@) {
        match a.parameters["amount"@] {
            ValueView::Int(k) => Some(k),
            _ => None,
        }
    } else {
        None
    }
}

/// The action of the simple domain that adds `amount`.
pub open spec fn increase_health(amount: i32) -> ActionView {
    ActionView {
        name: "increase_health"@,
        cost: 1,
        parameters: Map::<Seq<char>, ValueView>::empty().insert("amount"@, ValueView::Int(amount)),
    }
}

/// A one-field domain: the field "health" holds an integer, every state
/// offers to add 1 to 10 to it at cost 1 each, and a goal has at least
/// `GOAL_HEALTH`.
pub struct SimpleProblem;

impl SimpleProblem {
    /// The ten increments, smallest first.
    pub fn actions(&self) -> (r: Vec<Action>)
        ensures
            r@.len() == INCREMENTS,
            forall|k: int| 0 <= k < INCREMENTS ==> #[trigger] r@[k]@ == increase_health((k + 1) as i32),
    {
        proof {
            reveal_strlit("increase_health");
            reveal_strlit("amount");
        }
        let mut actions: Vec<Action> = Vec::new();
        let mut amount: i32 = 1;
        while amount <= INCREMENTS
            invariant
                1 <= amount <= INCREMENTS + 1,
                actions@.len() == amount - 1,
                forall|k: int| 0 <= k < amount - 1 ==> #[trigger] actions@[k]@ == increase_health((k + 1) as i32),
            decreases INCREMENTS + 1 - amount,
        {
            let mut params = Fields::new();
            params.insert("amount".to_owned(), Value::Int(amount));
            let a = Action::new("increase_health".to_owned(), 1, params);
            assert(a@.parameters =~= increase_health(amount).parameters);
            actions.push(a);
            amount = amount + 1;
        }
        actions
    }

    /// `state` with the action's amount added to its health; unchanged where
    /// the state holds no integer health, the action carries no integer
    /// amount, or the sum would not fit an `i32`.
    pub fn applied(&self, state: &State, action: &Action) -> (r: State)
        ensures
            match (health_of(state@), amount_of(action@)) {
                (Some(h), Some(k)) => if i32::MIN <= h + k <= i32::MAX {
                    r@ == state@.insert("health"@, ValueView::Int((h + k) as i32))
                } else {
                    r@ == state@
                },
                _ => r@ == state@,
            },
    {
        proof {
            reveal_strlit("health");
            reveal_strlit("amount");
        }
        let mut next = state.clone();
        if let Some(Value::Int(amount)) = action.parameters.get("amount") {
            if let Some(Value::Int(health)) = state.get_field("health") {
                if let Some(sum) = health.checked_add(*amount) {
                    next.insert_field("health".to_owned(), Value::Int(sum));
                }
            }
        }
        next
    }

    /// Whether the health has reached `GOAL_HEALTH`.
    pub fn reached(&self, state: &State) -> (r: bool)
        ensures
            r == (health_of(state@) matches Some(h) && h >= GOAL_HEALTH),
    {
        proof {
            reveal_strlit("health");
        }
        match state.get_field("health") {
            Some(Value::Int(health)) => *health >= GOAL_HEALTH,
            _ => false,
        }
    }

    /// The missing health divided by `HEALTH_PER_STEP`, rounded down; 0 once
    /// the goal is reached or where the state holds no integer health.
    pub fn estimate(&self, state: &State) -> (r: u64)
        ensures
            r == (match health_of(state@) {
                Some(h) => if h < GOAL_HEALTH {
                    ((GOAL_HEALTH - h) / HEALTH_PER_STEP as int) as u64
                } else {
                    0
                },
                None => 0,
            }),
    {
        proof {
            reveal_strlit("health");
        }
        match state.get_field("health") {
            Some(Value::Int(health)) => if *health < GOAL_HEALTH {
                ((GOAL_HEALTH as i64 - *health as i64) / HEALTH_PER_STEP as i64) as u64
            } else {
                0
            },
            _ => 0,
        }
    }
}

impl Problem for SimpleProblem {
    fn create_initial_node(&self, initial_state: State) -> Node {
        Node::new_empty(initial_state)
    }

    fn get_possible_actions(&self, state: &State) -> Vec<Action> {
        self.actions()
    }

    fn apply_action(&self, state: &State, action: &Action) -> State {
        self.applied(state, action)
    }

    fn is_goal_state(&self, state: &State) -> bool {
        self.reached(state)
    }

    fn heuristic(&self, state: &State) -> u64 {
        self.estimate(state)
    }
}

} // verus!
