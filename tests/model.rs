use std::collections::hash_map::DefaultHasher;
use std::collections::BTreeMap;
use std::hash::{Hash, Hasher};

use statesearch::action::Action;
use statesearch::fields::Fields;
use statesearch::frontier::{Frontier, Strategy};
use statesearch::node::Node;
use statesearch::problem::{Problem, SimpleProblem};
use statesearch::state::State;
use statesearch::tree::SearchTree;
use statesearch::value::{Position, Value};

fn hash_of<T: Hash>(t: &T) -> u64 {
    let mut h = DefaultHasher::new();
    t.hash(&mut h);
    h.finish()
}

fn step(name: &str, cost: i32) -> Action {
    Action::new(name.to_string(), cost, Fields::new())
}

fn keep(state: &State, _: &Action) -> State {
    state.clone()
}

#[test]
fn state_get_and_replace() {
    let mut s = State::new();
    assert_eq!(s.get_field("health"), None);
    s.insert_field("health".to_string(), Value::Int(50));
    s.insert_field("name".to_string(), Value::Text("hero".to_string()));
    s.insert_field("health".to_string(), Value::Int(51));
    assert_eq!(s.get_field("health"), Some(&Value::Int(51)));
    assert_eq!(s.get_field("name"), Some(&Value::Text("hero".to_string())));
    assert_eq!(s.get_field("missing"), None);
}

#[test]
fn state_equality_ignores_insertion_order() {
    let mut a = State::new();
    a.insert_field("b".to_string(), Value::Bool(true));
    a.insert_field("a".to_string(), Value::IntArray(vec![1, 2]));
    a.insert_field("c".to_string(), Value::Int(3));
    let mut b = State::new();
    b.insert_field("c".to_string(), Value::Int(3));
    b.insert_field("a".to_string(), Value::IntArray(vec![1, 2]));
    b.insert_field("b".to_string(), Value::Bool(true));
    assert_eq!(a, b);
    assert_eq!(hash_of(&a), hash_of(&b));
    b.insert_field("c".to_string(), Value::Int(4));
    assert_ne!(a, b);
}

#[test]
fn state_clone_is_equal_and_independent() {
    let mut positions = BTreeMap::new();
    positions.insert("taxi".to_string(), Position::new(1, 2));
    let mut a = State::new();
    a.insert_field("positions".to_string(), Value::Positions(positions));
    let mut b = a.clone();
    assert_eq!(a, b);
    b.insert_field("extra".to_string(), Value::Int(0));
    assert_ne!(a, b);
    assert_eq!(a.get_field("extra"), None);
}

#[test]
fn fields_with_multibyte_names_keep_apart() {
    let mut f = Fields::new();
    f.insert("é".to_string(), Value::Int(1));
    f.insert("e".to_string(), Value::Int(2));
    f.insert("".to_string(), Value::Int(3));
    assert_eq!(f.get("é"), Some(&Value::Int(1)));
    assert_eq!(f.get("e"), Some(&Value::Int(2)));
    assert_eq!(f.get(""), Some(&Value::Int(3)));
}

#[test]
fn action_clone_is_equal() {
    let mut p = Fields::new();
    p.insert("amount".to_string(), Value::Int(7));
    let a = Action::new("increase_health".to_string(), -3, p);
    assert_eq!(a.clone(), a);
    assert_eq!(a.cost, -3);
}

#[test]
fn new_tree_has_only_a_root() {
    let tree = SearchTree::new(State::new());
    assert_eq!(tree.len(), 1);
    let root = tree.get_node(0).unwrap();
    assert_eq!(root.parent, None);
    assert_eq!(root.action, None);
    assert_eq!(root.cost, 0);
    assert!(root.children.is_empty());
    assert!(tree.trace_actions(0).is_empty());
    assert!(tree.get_node(1).is_none());
    assert!(tree.trace_actions(5).is_empty());
}

#[test]
fn node_new_empty_is_root_shaped() {
    let n = Node::new_empty(State::new());
    assert_eq!(n.parent, None);
    assert_eq!(n.action, None);
    assert_eq!(n.cost, 0);
    assert!(n.children.is_empty());
}

#[test]
fn expand_links_children_in_generation_order() {
    let mut tree = SearchTree::new(State::new());
    let first = tree.expand_node(0, |_: &State| vec![step("a", 1), step("b", 2)], keep);
    assert_eq!(first, vec![1, 2]);
    let second = tree.expand_node(
        2,
        |_: &State| vec![step("c", 3), step("d", 4), step("e", 5)],
        keep,
    );
    assert_eq!(second, vec![3, 4, 5]);
    assert_eq!(tree.get_node(0).unwrap().children, vec![1, 2]);
    assert_eq!(tree.get_node(2).unwrap().children, vec![3, 4, 5]);
    for &i in &second {
        assert_eq!(tree.get_node(i).unwrap().parent, Some(2));
    }
    assert_eq!(tree.get_node(4).unwrap().cost, 6);
    let names: Vec<String> = tree.trace_actions(4).into_iter().map(|a| a.name).collect();
    assert_eq!(names, vec!["b".to_string(), "d".to_string()]);
}

#[test]
fn expand_outside_the_tree_changes_nothing() {
    let mut tree = SearchTree::new(State::new());
    let r = tree.expand_node(3, |_: &State| vec![step("a", 1)], keep);
    assert!(r.is_empty());
    assert_eq!(tree.len(), 1);
}

#[test]
fn expand_with_no_actions_adds_nothing() {
    let mut tree = SearchTree::new(State::new());
    let r = tree.expand_node(0, |_: &State| Vec::new(), keep);
    assert!(r.is_empty());
    assert_eq!(tree.len(), 1);
}

#[test]
fn costs_accumulate_with_negative_actions() {
    let mut tree = SearchTree::new(State::new());
    let a = tree.add_node(0, step("gain", -4), keep);
    let b = tree.add_node(a, step("pay", 10), keep);
    let c = tree.add_node(b, step("gain", -7), keep);
    assert_eq!(tree.get_node(a).unwrap().cost, -4);
    assert_eq!(tree.get_node(b).unwrap().cost, 6);
    assert_eq!(tree.get_node(c).unwrap().cost, -1);
    assert_eq!(tree.get_node(c).unwrap().parent, Some(b));
    let path = tree.trace_actions(c);
    assert_eq!(path.iter().map(|x| x.cost as i128).sum::<i128>(), -1);
}

#[test]
fn costs_reach_beyond_i32() {
    let mut tree = SearchTree::new(State::new());
    let a = tree.add_node(0, step("big", i32::MAX), keep);
    let b = tree.add_node(a, step("big", i32::MAX), keep);
    assert_eq!(tree.get_node(b).unwrap().cost, 2 * i32::MAX as i128);
}

#[test]
fn uninformed_frontier_is_first_in_first_out() {
    let mut f = Frontier::new(Strategy::Uninformed);
    f.insert(4, 100, 0);
    f.insert(7, -5, 9);
    f.insert(1, 0, 3);
    assert_eq!(f.len(), 3);
    assert_eq!(f.pop(), Some(4));
    f.insert(9, -100, 0);
    assert_eq!(f.pop(), Some(7));
    assert_eq!(f.pop(), Some(1));
    assert_eq!(f.pop(), Some(9));
    assert_eq!(f.pop(), None);
}

#[test]
fn cost_informed_frontier_orders_by_cost_plus_estimate() {
    let mut f = Frontier::new(Strategy::CostInformed);
    f.insert(1, 5, 5);
    f.insert(2, 3, 1);
    f.insert(3, 1, 3);
    f.insert(4, 9, 0);
    assert_eq!(f.strategy(), Strategy::CostInformed);
    assert_eq!(f.pop(), Some(2));
    assert_eq!(f.pop(), Some(3));
    assert_eq!(f.pop(), Some(4));
    assert_eq!(f.pop(), Some(1));
    assert_eq!(f.pop(), None);
}

#[test]
fn heuristic_only_frontier_ignores_cost() {
    let mut f = Frontier::new(Strategy::HeuristicOnly);
    f.insert(1, 0, 5);
    f.insert(2, 1000, 2);
    f.insert(3, -50, 2);
    assert_eq!(f.pop(), Some(2));
    assert_eq!(f.pop(), Some(3));
    assert_eq!(f.pop(), Some(1));
}

fn health_state(h: i32) -> State {
    let mut s = State::new();
    s.insert_field("health".to_string(), Value::Int(h));
    s
}

#[test]
fn simple_problem_offers_ten_increments() {
    let p = SimpleProblem;
    let actions = p.get_possible_actions(&health_state(0));
    assert_eq!(actions.len(), 10);
    for (k, a) in actions.iter().enumerate() {
        assert_eq!(a.name, "increase_health");
        assert_eq!(a.cost, 1);
        assert_eq!(a.parameters.get("amount"), Some(&Value::Int(k as i32 + 1)));
    }
}

#[test]
fn simple_problem_applies_goal_and_estimate() {
    let p = SimpleProblem;
    let actions = p.get_possible_actions(&health_state(0));
    let next = p.apply_action(&health_state(50), &actions[6]);
    assert_eq!(next.get_field("health"), Some(&Value::Int(57)));
    // Without a health field the action does not apply.
    let empty = p.apply_action(&State::new(), &actions[0]);
    assert_eq!(empty, State::new());
    // An overflowing sum does not apply either.
    let top = p.apply_action(&health_state(i32::MAX), &actions[0]);
    assert_eq!(top, health_state(i32::MAX));
    assert!(!p.is_goal_state(&health_state(99999)));
    assert!(p.is_goal_state(&health_state(100000)));
    assert!(!p.is_goal_state(&State::new()));
    assert_eq!(p.heuristic(&health_state(50)), 19990);
    assert_eq!(p.heuristic(&health_state(99999)), 0);
    assert_eq!(p.heuristic(&health_state(200000)), 0);
    assert_eq!(p.heuristic(&State::new()), 0);
    let root = p.create_initial_node(health_state(3));
    assert_eq!(root.cost, 0);
    assert_eq!(root.state, health_state(3));
}

#[test]
fn subtree_lines_list_depth_first_with_indentation() {
    let mut tree = SearchTree::new(State::new());
    tree.expand_node(0, |_: &State| vec![step("a", 1), step("b", 1)], keep);
    tree.expand_node(1, |_: &State| vec![step("c", 1)], keep);
    tree.expand_node(2, |_: &State| vec![step("d", 1)], keep);
    assert_eq!(tree.subtree_lines(0, 2), vec![(0, 2), (1, 6), (3, 10), (2, 6), (4, 10)]);
    assert_eq!(tree.subtree_lines(2, 0), vec![(2, 0), (4, 4)]);
    assert_eq!(tree.subtree_lines(9, 0), vec![]);
    assert_eq!(tree.subtree_lines(4, usize::MAX - 1), vec![(4, usize::MAX - 1)]);
    assert_eq!(tree.subtree_lines(2, usize::MAX - 1), vec![(2, usize::MAX - 1), (4, usize::MAX)]);
}
