use statesearch::action::Action;
use statesearch::fields::Fields;
use statesearch::frontier::Strategy;
use statesearch::search::generic_search;
use statesearch::state::State;
use statesearch::tree::SearchTree;
use statesearch::value::Value;

// Helper function to create an action with specified parameters
fn create_action(name: &str, cost: i32, amount: i32) -> Action {
    let mut parameters = Fields::new();
    parameters.insert("amount".to_string(), Value::Int(amount));
    Action::new(name.to_string(), cost, parameters)
}

#[test]
fn test_generic_search_with_bfs() {
    // Initialize the initial state
    let mut initial_state = State::new();
    initial_state.insert_field("health".to_string(), Value::Int(50));

    // Create a search tree
    let mut tree = SearchTree::new(initial_state.clone());

    // Define the get_possible_actions function
    let get_possible_actions = |_state: &State| {
        let mut actions = Vec::new();
        for amount in 1..=3 {
            actions.push(create_action("increase_health", amount, amount));
        }
        actions
    };

    // Define the apply_action function
    let apply_action = |state: &State, action: &Action| {
        let mut new_state = state.clone();
        if let Some(Value::Int(amount)) = action.parameters.get("amount") {
            if let Some(Value::Int(health)) = state.get_field("health") {
                new_state.insert_field("health".to_string(), Value::Int(health + amount));
            }
        }
        new_state
    };

    // Define the is_goal function
    let is_goal = |state: &State| {
        if let Some(Value::Int(health)) = state.get_field("health") {
            *health >= 60
        } else {
            false
        }
    };

    // Run the generic search with the uninformed (FIFO) strategy
    let result = generic_search(
        &mut tree,
        get_possible_actions,
        apply_action,
        is_goal,
        Strategy::Uninformed,
        |_: &State| 0,
        1000,
    );

    // Check if the search found a solution
    assert!(result.is_ok(), "Expected to find a solution");

    // Verify the actions returned lead to the goal
    let actions = result.unwrap();
    let mut health = 50;
    for action in &actions {
        if let Some(Value::Int(amount)) = action.parameters.get("amount") {
            health += amount;
        }
    }
    assert!(health >= 60, "Expected health to reach or exceed 60, got {}", health);
}

#[test]
fn test_trace_actions() {
    let initial_state = State::new();
    let mut tree = SearchTree::new(initial_state);

    // Define apply_action logic
    let apply_action = |state: &State, action: &Action| {
        let mut new_state = state.clone();
        if let Some(Value::Int(amount)) = action.parameters.get("amount") {
            if let Some(Value::Int(health)) = state.get_field("health") {
                new_state.insert_field("health".to_string(), Value::Int(health + amount));
            } else {
                new_state.insert_field("health".to_string(), Value::Int(*amount));
            }
        }
        new_state
    };

    // Add nodes to the tree
    let action1 = create_action("increase_health", 5, 10);
    let first_node_index = tree.add_node(0, action1.clone(), &apply_action);

    let action2 = create_action("increase_health", 3, 5);
    let second_node_index = tree.add_node(first_node_index, action2.clone(), &apply_action);

    // Trace actions back from the second node to the root
    let traced_actions = tree.trace_actions(second_node_index);
    assert_eq!(traced_actions, vec![action1, action2]);
}

#[test]
fn test_expand_node() {
    let mut initial_state = State::new();
    initial_state.insert_field("health".to_string(), Value::Int(50));
    let mut tree = SearchTree::new(initial_state);

    // Define get_possible_actions logic
    let get_possible_actions = |_state: &State| {
        let mut actions = Vec::new();
        for amount in 1..=3 {
            let mut parameters = Fields::new();
            parameters.insert("amount".to_string(), Value::Int(amount));
            actions.push(Action::new("increase_health".to_string(), amount, parameters));
        }
        actions
    };

    // Define apply_action logic
    let apply_action = |state: &State, action: &Action| {
        let mut new_state = state.clone();
        if let Some(Value::Int(amount)) = action.parameters.get("amount") {
            if let Some(Value::Int(health)) = state.get_field("health") {
                new_state.insert_field("health".to_string(), Value::Int(health + amount));
            }
        }
        new_state
    };

    // Expand the root node
    let successors = tree.expand_node(0, get_possible_actions, apply_action);

    // Check that the correct number of successors were created
    assert_eq!(successors.len(), 3);

    // Check that the successors have the expected health values
    assert_eq!(tree.get_node(successors[0]).unwrap().state.get_field("health"), Some(&Value::Int(51)));
    assert_eq!(tree.get_node(successors[1]).unwrap().state.get_field("health"), Some(&Value::Int(52)));
    assert_eq!(tree.get_node(successors[2]).unwrap().state.get_field("health"), Some(&Value::Int(53)));
}
