use statesearch::action::Action;
use statesearch::fields::Fields;
use statesearch::frontier::{Frontier, Strategy};
use statesearch::search::{generic_search, search_round, SearchFailure, SearchStatus};
use statesearch::state::State;
use statesearch::tree::SearchTree;
use statesearch::value::Value;

fn int_field(state: &State, key: &str) -> Option<i32> {
    match state.get_field(key) {
        Some(Value::Int(v)) => Some(*v),
        _ => None,
    }
}

fn plain_action(name: &str, cost: i32) -> Action {
    Action::new(name.to_string(), cost, Fields::new())
}

fn total_cost(actions: &[Action]) -> i64 {
    actions.iter().map(|a| a.cost as i64).sum()
}

fn counter_state(value: i32) -> State {
    let mut s = State::new();
    s.insert_field("value".to_string(), Value::Int(value));
    s
}

// A one-dimensional domain: "+1" at cost 1 while the value is below 10.
fn counter_actions(state: &State) -> Vec<Action> {
    match int_field(state, "value") {
        Some(v) if v < 10 => vec![plain_action("+1", 1)],
        _ => Vec::new(),
    }
}

fn counter_apply(state: &State, action: &Action) -> State {
    let mut next = state.clone();
    if action.name == "+1" {
        if let Some(v) = int_field(state, "value") {
            next.insert_field("value".to_string(), Value::Int(v + 1));
        }
    }
    next
}

#[test]
fn counter_reaches_five_in_five_steps() {
    let mut tree = SearchTree::new(counter_state(0));
    let result = generic_search(
        &mut tree,
        counter_actions,
        counter_apply,
        |s: &State| int_field(s, "value") == Some(5),
        Strategy::CostInformed,
        |s: &State| (5 - int_field(s, "value").unwrap_or(5)).max(0) as u64,
        1000,
    );
    let path = result.unwrap();
    assert_eq!(path.len(), 5);
    assert_eq!(total_cost(&path), 5);
    assert!(path.iter().all(|a| a.name == "+1"));
}

#[test]
fn unreachable_goal_stops_at_budget() {
    let mut tree = SearchTree::new(counter_state(0));
    let result = generic_search(
        &mut tree,
        |_: &State| vec![plain_action("+1", 1)],
        counter_apply,
        |s: &State| int_field(s, "value") == Some(1000000),
        Strategy::CostInformed,
        |_: &State| 0,
        100,
    );
    assert_eq!(result, Err(SearchFailure::BudgetExhausted));
    // One child per expansion: the root and the hundred children.
    assert_eq!(tree.len(), 101);
}

fn farm_state(a: i32, b: i32) -> State {
    let mut s = State::new();
    s.insert_field("A".to_string(), Value::Int(a));
    s.insert_field("B".to_string(), Value::Int(b));
    s
}

fn farm_actions(state: &State) -> Vec<Action> {
    let a = int_field(state, "A").unwrap_or(0);
    let mut actions = Vec::new();
    if a >= 4 {
        actions.push(plain_action("move-fast", 1));
    }
    if a >= 1 {
        actions.push(plain_action("move-slow", 1));
    }
    actions
}

fn farm_apply(state: &State, action: &Action) -> State {
    let a = int_field(state, "A").unwrap_or(0);
    let b = int_field(state, "B").unwrap_or(0);
    if action.name == "move-fast" && a >= 4 {
        farm_state(a - 4, b + 2)
    } else if action.name == "move-slow" && a >= 1 {
        farm_state(a - 1, b + 1)
    } else {
        state.clone()
    }
}

#[test]
fn fast_transfer_is_found_first() {
    let mut tree = SearchTree::new(farm_state(5, 0));
    let result = generic_search(
        &mut tree,
        farm_actions,
        farm_apply,
        |s: &State| int_field(s, "B").unwrap_or(0) >= 2,
        Strategy::CostInformed,
        |s: &State| (2 - int_field(s, "B").unwrap_or(0)).max(0) as u64 / 2,
        1000,
    );
    let path = result.unwrap();
    assert_eq!(path.len(), 1);
    assert_eq!(path[0].name, "move-fast");
    assert_eq!(total_cost(&path), 1);
}

// Two routes to the goal: "cheap" (1) then "finish" (1), or "pricey" (10)
// then "finish" (1). The estimate favours the pricey route.
fn route_state(place: &str) -> State {
    let mut s = State::new();
    s.insert_field("at".to_string(), Value::Text(place.to_string()));
    s
}

fn route_place(state: &State) -> String {
    match state.get_field("at") {
        Some(Value::Text(p)) => p.clone(),
        _ => String::new(),
    }
}

fn route_actions(state: &State) -> Vec<Action> {
    match route_place(state).as_str() {
        "start" => vec![plain_action("cheap", 1), plain_action("pricey", 10)],
        "x" | "y" => vec![plain_action("finish", 1)],
        _ => Vec::new(),
    }
}

fn route_apply(state: &State, action: &Action) -> State {
    match action.name.as_str() {
        "cheap" => route_state("x"),
        "pricey" => route_state("y"),
        "finish" => route_state("goal"),
        _ => state.clone(),
    }
}

fn route_estimate(state: &State) -> u64 {
    match route_place(state).as_str() {
        "x" => 10,
        "y" => 1,
        _ => 0,
    }
}

#[test]
fn heuristic_only_can_return_the_costlier_route() {
    let mut tree = SearchTree::new(route_state("start"));
    let result = generic_search(
        &mut tree,
        route_actions,
        route_apply,
        |s: &State| route_place(s) == "goal",
        Strategy::HeuristicOnly,
        route_estimate,
        100,
    );
    let path = result.unwrap();
    let names: Vec<&str> = path.iter().map(|a| a.name.as_str()).collect();
    assert_eq!(names, vec!["pricey", "finish"]);
    assert_eq!(total_cost(&path), 11);
}

#[test]
fn cost_informed_returns_the_cheaper_route() {
    let mut tree = SearchTree::new(route_state("start"));
    let result = generic_search(
        &mut tree,
        route_actions,
        route_apply,
        |s: &State| route_place(s) == "goal",
        Strategy::CostInformed,
        |_: &State| 0,
        100,
    );
    let path = result.unwrap();
    let names: Vec<&str> = path.iter().map(|a| a.name.as_str()).collect();
    assert_eq!(names, vec!["cheap", "finish"]);
    assert_eq!(total_cost(&path), 2);
}

#[test]
fn goal_is_tested_when_generated_not_when_popped() {
    // From the start, "slow" reaches the goal at cost 10 while "step" leads
    // to a place from which the goal costs 1 more: the goal generated first
    // is accepted although a cheaper route exists.
    let actions = |s: &State| match route_place(s).as_str() {
        "start" => vec![plain_action("slow", 10), plain_action("step", 1)],
        "x" => vec![plain_action("finish", 1)],
        _ => Vec::new(),
    };
    let apply = |s: &State, a: &Action| match a.name.as_str() {
        "slow" => route_state("goal"),
        "step" => route_state("x"),
        "finish" => route_state("goal"),
        _ => s.clone(),
    };
    let mut tree = SearchTree::new(route_state("start"));
    let result = generic_search(
        &mut tree,
        actions,
        apply,
        |s: &State| route_place(s) == "goal",
        Strategy::CostInformed,
        |_: &State| 0,
        100,
    );
    let path = result.unwrap();
    assert_eq!(path.len(), 1);
    assert_eq!(path[0].name, "slow");
    assert_eq!(total_cost(&path), 10);
}

#[test]
fn exhausted_frontier_is_no_solution() {
    let mut tree = SearchTree::new(counter_state(7));
    let result = generic_search(
        &mut tree,
        counter_actions,
        counter_apply,
        |s: &State| int_field(s, "value") == Some(100),
        Strategy::Uninformed,
        |_: &State| 0,
        1000,
    );
    assert_eq!(result, Err(SearchFailure::NoSolution));
    // 7, 8, 9, 10: every node expanded, no goal.
    assert_eq!(tree.len(), 4);
    assert_eq!(SearchFailure::NoSolution.reason(), "No solution found");
}

#[test]
fn initial_state_is_never_tested() {
    let mut tree = SearchTree::new(counter_state(5));
    let result = generic_search(
        &mut tree,
        counter_actions,
        counter_apply,
        |s: &State| int_field(s, "value") == Some(5),
        Strategy::Uninformed,
        |_: &State| 0,
        50,
    );
    assert_eq!(result, Err(SearchFailure::NoSolution));
}

#[test]
fn zero_budget_expands_nothing() {
    let mut tree = SearchTree::new(counter_state(0));
    let result = generic_search(
        &mut tree,
        counter_actions,
        counter_apply,
        |s: &State| int_field(s, "value") == Some(1),
        Strategy::Uninformed,
        |_: &State| 0,
        0,
    );
    assert_eq!(result, Err(SearchFailure::BudgetExhausted));
    assert_eq!(tree.len(), 1);
    assert_eq!(SearchFailure::BudgetExhausted.reason(), "Expansion budget exhausted");
}

#[test]
fn one_round_expands_the_first_entry_and_queues_its_children() {
    let mut tree = SearchTree::new(route_state("start"));
    let mut frontier = Frontier::new(Strategy::CostInformed);
    frontier.insert(0, 0, 0);
    let status = search_round(
        &mut tree,
        &mut frontier,
        route_actions,
        route_apply,
        |s: &State| route_place(s) == "goal",
        route_estimate,
    );
    assert_eq!(status, SearchStatus::Running);
    assert_eq!(tree.len(), 3);
    assert_eq!(tree.get_node(0).unwrap().children, vec![1, 2]);
    // "x" costs 1 with estimate 10, "y" costs 10 with estimate 1: a tie, so
    // the earlier entry leaves first.
    assert_eq!(frontier.len(), 2);
    assert_eq!(frontier.pop(), Some(1));
    assert_eq!(frontier.pop(), Some(2));
    // Nothing left to pop: the round ends the search.
    let status = search_round(
        &mut tree,
        &mut frontier,
        route_actions,
        route_apply,
        |s: &State| route_place(s) == "goal",
        route_estimate,
    );
    assert_eq!(status, SearchStatus::Failed(SearchFailure::NoSolution));
    assert_eq!(tree.len(), 3);
}

#[test]
fn one_round_stops_at_the_first_goal_child() {
    let mut tree = SearchTree::new(counter_state(0));
    let mut frontier = Frontier::new(Strategy::Uninformed);
    frontier.insert(0, 0, 0);
    let status = search_round(
        &mut tree,
        &mut frontier,
        |_: &State| vec![plain_action("+1", 1), plain_action("+1", 1), plain_action("+1", 1)],
        counter_apply,
        |s: &State| int_field(s, "value") == Some(1),
        |_: &State| 0,
    );
    match status {
        SearchStatus::Succeeded(path) => assert_eq!(path.len(), 1),
        other => panic!("expected a goal, got {:?}", other),
    }
    // All three children were created; none joined the frontier.
    assert_eq!(tree.len(), 4);
    assert_eq!(frontier.len(), 0);
}
