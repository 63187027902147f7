use crate::action::Action;
use crate::frontier::{priority_of, popped_from, Frontier, FrontierEntry, Strategy};
use crate::node::Node;
use crate::tree::{action_views, expanded, node_ok, path_actions, well_formed, SearchTree};
use crate::state::State;
use vstd::prelude::*;

verus! {

/// Why a search ended without a solution.
#[derive(Debug, Clone, Copy, PartialEq, Eq, Structural)]
pub enum SearchFailure {
    /// The frontier ran empty: every node generated was expanded and none of
    /// them is a goal.
    NoSolution,
    /// The budget of expansions was spent before a goal turned up.
    BudgetExhausted,
}

impl SearchFailure {
    /// Why the search failed, in words.
    pub fn reason(&self) -> (r: &'static str)
        ensures
            *self == SearchFailure::NoSolution ==> r@ == "No solution found"@,
            *self == SearchFailure::BudgetExhausted ==> r@ == "Expansion budget exhausted"@,
    {
        match self {
            SearchFailure::NoSolution => "No solution found",
            SearchFailure::BudgetExhausted => "Expansion budget exhausted",
        }
    }
}

/// Node `j` has been expanded: its children hold, in order, the actions that
/// `get_possible_actions` gave for its state.
pub open spec fn expanded_with<F: Fn(&State) -> Vec<Action>>(
    nodes: Seq<Node>,
    j: int,
    get_possible_actions: F,
) -> bool {
    exists|actions: Vec<Action>|
        {
            &&& #[trigger] get_possible_actions.ensures((&nodes[j].state,), actions)
            &&& actions@.len() == nodes[j].children@.len()
            &&& forall|k: int|
                0 <= k < actions@.len() ==> nodes[nodes[j].children@[k] as int].action == Some(
                    #[trigger] actions@[k],
                )
        }
}

/// `is_goal` answered `answer` for the state of node `j`.
pub open spec fn goal_answer<H: Fn(&State) -> bool>(
    nodes: Seq<Node>,
    j: int,
    is_goal: H,
    answer: bool,
) -> bool {
    is_goal.ensures((&nodes[j].state,), answer)
}

/// `order` lists distinct nodes of the tree, each of them expanded.
pub open spec fn expanded_distinct<F: Fn(&State) -> Vec<Action>>(
    nodes: Seq<Node>,
    order: Seq<int>,
    get_possible_actions: F,
) -> bool {
    &&& order.no_duplicates()
    &&& forall|k: int|
        0 <= k < order.len() ==> 0 <= #[trigger] order[k] < nodes.len() && expanded_with(
            nodes,
            order[k],
            get_possible_actions,
        )
}

/// `j` waits in the frontier.
pub open spec fn pending(entries: Seq<FrontierEntry>, j: int) -> bool {
    exists|k: int| 0 <= k < entries.len() && entries[k].index == j
}

/// Expanding another node keeps node `j` expanded.
proof fn lemma_expanded_kept<F: Fn(&State) -> Vec<Action>>(
    before: Seq<Node>,
    after: Seq<Node>,
    n: int,
    actions: Seq<Action>,
    new: Seq<usize>,
    get_possible_actions: F,
    j: int,
)
    requires
        well_formed(before),
        0 <= n < before.len(),
        expanded(before, after, n, actions, new),
        0 <= j < before.len(),
        j != n,
        expanded_with(before, j, get_possible_actions),
    ensures
        expanded_with(after, j, get_possible_actions),
{
    let acts = choose|acts: Vec<Action>|
        {
            &&& #[trigger] get_possible_actions.ensures((&before[j].state,), acts)
            &&& acts@.len() == before[j].children@.len()
            &&& forall|k: int|
                0 <= k < acts@.len() ==> before[before[j].children@[k] as int].action == Some(
                    #[trigger] acts@[k],
                )
        };
    assert(node_ok(before, j));
    assert(after[j] == before[j]);
    assert forall|k: int| 0 <= k < acts@.len() implies after[after[j].children@[k] as int].action
        == Some(#[trigger] acts@[k]) by {
        let c = before[j].children@[k] as int;
        assert(c < before.len());
        if c != n {
            assert(after[c] == before[c]);
        }
    }
    assert(get_possible_actions.ensures((&after[j].state,), acts));
}

/// Where a search stands after a round.
#[derive(Debug, PartialEq, Eq)]
pub enum SearchStatus {
    /// No goal yet; the frontier holds the nodes still to expand.
    Running,
    /// A goal was generated; these are the actions that lead to it.
    Succeeded(Vec<Action>),
    /// The search is over without a solution.
    Failed(SearchFailure),
}

/// `entries` are the frontier entries of new nodes `len`, `len + 1`, ...:
/// each with the priority that `strategy` gives its cost and an estimate
/// that `heuristic` returned for its state.
pub open spec fn children_queued<K: Fn(&State) -> u64>(
    nodes: Seq<Node>,
    len: int,
    entries: Seq<FrontierEntry>,
    strategy: Strategy,
    heuristic: K,
) -> bool {
    forall|k: int|
        0 <= k < entries.len() ==> {
            &&& (#[trigger] entries[k]).index == len + k
            &&& exists|h: u64|
                {
                    &&& #[trigger] heuristic.ensures((&nodes[len + k].state,), h)
                    &&& entries[k].priority == priority_of(
                        strategy,
                        nodes[len + k].cost as int,
                        h as int,
                    )
                }
        }
}

/// The indices `len`, `len + 1`, ... of `count` new nodes.
pub open spec fn new_indices(len: int, count: int) -> Seq<usize> {
    Seq::new(count as nat, |k: int| (len + k) as usize)
}

/// One round of the search took the tree from `before` to `after` and the
/// frontier from `queued` to `queue_after`, with result `r`: `popped` left
/// the frontier as a pop does, leaving `waiting`. With nothing to pop the
/// search failed. Otherwise the popped node was expanded, and its new
/// children tested in generation order: the first goal among them ends the
/// search with the actions that lead to it; each child before it joined the
/// frontier, behind `waiting`.
pub open spec fn round_outcome<F, G, H, K>(
    before: Seq<Node>,
    after: Seq<Node>,
    queued: Seq<FrontierEntry>,
    waiting: Seq<FrontierEntry>,
    popped: Option<usize>,
    queue_after: Seq<FrontierEntry>,
    strategy: Strategy,
    r: SearchStatus,
    get_possible_actions: F,
    apply_action: G,
    is_goal: H,
    heuristic: K,
) -> bool where
    F: Fn(&State) -> Vec<Action>,
    G: Fn(&State, &Action) -> State,
    H: Fn(&State) -> bool,
    K: Fn(&State) -> u64,
 {
    let len = before.len() as int;
    &&& popped_from(queued, waiting, popped)
    &&& match popped {
        None => {
            &&& r == SearchStatus::Failed(SearchFailure::NoSolution)
            &&& after == before
            &&& queue_after == waiting
        },
        Some(n) => exists|actions: Vec<Action>|
            {
                &&& #[trigger] get_possible_actions.ensures((&before[n as int].state,), actions)
                &&& expanded(before, after, n as int, actions@, new_indices(len, actions@.len() as int))
                &&& forall|k: int|
                    0 <= k < actions@.len() ==> apply_action.ensures(
                        (&before[n as int].state, &actions@[k]),
                        #[trigger] after[len + k].state,
                    )
                &&& queue_after.len() >= waiting.len()
                &&& queue_after.subrange(0, waiting.len() as int) == waiting
                &&& children_queued(
                    after,
                    len,
                    queue_after.subrange(waiting.len() as int, queue_after.len() as int),
                    strategy,
                    heuristic,
                )
                &&& match r {
                    SearchStatus::Running => {
                        &&& queue_after.len() == waiting.len() + actions@.len()
                        &&& forall|k: int|
                            0 <= k < actions@.len() ==> #[trigger] goal_answer(
                                after,
                                len + k,
                                is_goal,
                                false,
                            )
                    },
                    SearchStatus::Succeeded(path) => {
                        let g = queue_after.len() - waiting.len();
                        &&& g < actions@.len()
                        &&& goal_answer(after, len + g, is_goal, true)
                        &&& forall|k: int|
                            0 <= k < g ==> #[trigger] goal_answer(after, len + k, is_goal, false)
                        &&& action_views(path@) == action_views(path_actions(after, len + g))
                    },
                    SearchStatus::Failed(_) => false,
                }
            },
    }
}

/// One round of the search: pops the entry that the frontier's strategy puts
/// first and expands that node; then tests its new children in generation
/// order. The first goal among them ends the search, whatever else waits in
/// the frontier; each child before it joins the frontier with its path cost
/// and the estimate `heuristic` gives for it. An empty frontier ends the
/// search without a solution.
pub fn search_round<F, G, H, K>(
    tree: &mut SearchTree,
    frontier: &mut Frontier,
    get_possible_actions: F,
    apply_action: G,
    is_goal: H,
    heuristic: K,
) -> (r: SearchStatus) where
    F: Fn(&State) -> Vec<Action>,
    G: Fn(&State, &Action) -> State,
    H: Fn(&State) -> bool,
    K: Fn(&State) -> u64,

    requires
        old(tree).wf(),
        old(frontier).wf(),
        forall|k: int|
            0 <= k < old(frontier)@.len() ==> (#[trigger] old(frontier)@[k]).index < old(tree)@.len(),
        forall|s: &State| get_possible_actions.requires((s,)),
        forall|s: &State, a: &Action| apply_action.requires((s, a)),
        forall|s: &State| is_goal.requires((s,)),
        forall|s: &State| heuristic.requires((s,)),
    ensures
        final(tree).wf(),
        final(frontier).wf(),
        final(frontier).kind() == old(frontier).kind(),
        forall|k: int|
            0 <= k < final(frontier)@.len() ==> (#[trigger] final(frontier)@[k]).index < final(tree)@.len(),
        exists|waiting: Seq<FrontierEntry>, popped: Option<usize>|
            #[trigger] round_outcome(
                old(tree)@,
                final(tree)@,
                old(frontier)@,
                waiting,
                popped,
                final(frontier)@,
                old(frontier).kind(),
                r,
                get_possible_actions,
                apply_action,
                is_goal,
                heuristic,
            ),
{
    let ghost before = tree@;
    let ghost queued = frontier@;
    let popped = frontier.pop();
    let ghost waiting = frontier@;
    let n = match popped {
        Some(n) => n,
        None => {
            let r = SearchStatus::Failed(SearchFailure::NoSolution);
            assert(round_outcome(
                before,
                tree@,
                queued,
                waiting,
                popped,
                frontier@,
                frontier.kind(),
                r,
                get_possible_actions,
                apply_action,
                is_goal,
                heuristic,
            ));
            return r;
        },
    };
    let ghost m = choose|m: int|
        {
            &&& crate::frontier::first_min(queued, m)
            &&& popped == Some(queued[m].index)
            &&& waiting == queued.remove(m)
        };
    assert(queued[m].index < before.len());
    let successors = tree.expand_node(n, &get_possible_actions, &apply_action);
    let ghost after = tree@;
    let ghost len = before.len() as int;
    let ghost acts = choose|actions: Vec<Action>|
        {
            &&& get_possible_actions.ensures((&before[n as int].state,), actions)
            &&& expanded(before, after, n as int, actions@, successors@)
            &&& forall|k: int|
                0 <= k < actions@.len() ==> apply_action.ensures(
                    (&before[n as int].state, &actions@[k]),
                    #[trigger] after[before.len() + k].state,
                )
        };
    assert(successors@ =~= new_indices(len, acts@.len() as int));
    assert forall|k: int| 0 <= k < waiting.len() implies (#[trigger] waiting[k]).index < after.len() by {
        if k < m {
            assert(waiting[k] == queued[k]);
        } else {
            assert(waiting[k] == queued[k + 1]);
        }
    }
    assert(frontier@.subrange(0, waiting.len() as int) =~= waiting);
    assert(frontier@.subrange(waiting.len() as int, frontier@.len() as int) =~= Seq::<FrontierEntry>::empty());
    let mut i: usize = 0;
    while i < successors.len()
        invariant
            tree.wf(),
            tree@ == after,
            len == before.len(),
            0 <= i <= successors@.len(),
            successors@ == new_indices(len, acts@.len() as int),
            expanded(before, after, n as int, acts@, successors@),
            frontier.wf(),
            frontier.kind() == old(frontier).kind(),
            forall|s: &State| is_goal.requires((s,)),
            forall|s: &State| heuristic.requires((s,)),
            frontier@.len() == waiting.len() + i,
            frontier@.subrange(0, waiting.len() as int) == waiting,
            forall|k: int| 0 <= k < waiting.len() ==> (#[trigger] waiting[k]).index < after.len(),
            children_queued(
                after,
                len,
                frontier@.subrange(waiting.len() as int, frontier@.len() as int),
                frontier.kind(),
                heuristic,
            ),
            forall|k: int| 0 <= k < i ==> #[trigger] goal_answer(after, len + k, is_goal, false),
            forall|k: int| 0 <= k < frontier@.len() ==> (#[trigger] frontier@[k]).index < after.len(),
            get_possible_actions.ensures((&before[n as int].state,), acts),
            forall|k: int|
                0 <= k < acts@.len() ==> apply_action.ensures(
                    (&before[n as int].state, &acts@[k]),
                    #[trigger] after[len + k].state,
                ),
            popped_from(queued, waiting, popped),
            popped == Some(n),
            queued == old(frontier)@,
            before == old(tree)@,
        decreases successors@.len() - i,
    {
        let c = successors[i];
        let node = tree.get_node(c).unwrap();
        if is_goal(&node.state) {
            let path = tree.trace_actions(c);
            let r = SearchStatus::Succeeded(path);
            proof {
                assert(c == len + i);
                assert(goal_answer(after, len + i, is_goal, true));
                assert(round_outcome(
                    before,
                    tree@,
                    queued,
                    waiting,
                    popped,
                    frontier@,
                    frontier.kind(),
                    r,
                    get_possible_actions,
                    apply_action,
                    is_goal,
                    heuristic,
                ));
            }
            return r;
        }
        assert(node_ok(tree@, c as int));
        let h = heuristic(&node.state);
        let ghost prev = frontier@;
        frontier.insert(c, node.cost, h);
        proof {
            assert forall|k: int| 0 <= k < frontier@.len() implies (#[trigger] frontier@[k]).index
                < after.len() by {
                if k < prev.len() {
                    assert(frontier@[k] == prev[k]);
                }
            }
            let added = frontier@.subrange(waiting.len() as int, frontier@.len() as int);
            let old_added = prev.subrange(waiting.len() as int, prev.len() as int);
            assert(frontier@.subrange(0, waiting.len() as int) =~= prev.subrange(0, waiting.len() as int));
            assert forall|k: int| 0 <= k < added.len() implies {
                &&& (#[trigger] added[k]).index == len + k
                &&& exists|h: u64|
                    {
                        &&& #[trigger] heuristic.ensures((&after[len + k].state,), h)
                        &&& added[k].priority == priority_of(
                            frontier.kind(),
                            after[len + k].cost as int,
                            h as int,
                        )
                    }
            } by {
                if k < i {
                    assert(added[k] == old_added[k]);
                } else {
                    assert(added[k] == frontier@[frontier@.len() - 1]);
                    assert(heuristic.ensures((&after[len + k].state,), h));
                }
            }
        }
        i = i + 1;
    }
    let r = SearchStatus::Running;
    proof {
        assert(frontier@.subrange(0, waiting.len() as int) == waiting);
        assert(round_outcome(
            before,
            tree@,
            queued,
            waiting,
            popped,
            frontier@,
            frontier.kind(),
            r,
            get_possible_actions,
            apply_action,
            is_goal,
            heuristic,
        ));
    }
    r
}

/// What holds between rounds of a search: the frontier holds distinct
/// nodes of the tree that are not expanded yet and not in `order`; every
/// node but the root has been tested and is no goal; every node waits in the
/// frontier or has been expanded; `order` lists distinct expanded nodes.
#[verifier::opaque]
spec fn driver_inv<F, H>(
    nodes: Seq<Node>,
    queue: Seq<FrontierEntry>,
    order: Seq<int>,
    get_possible_actions: F,
    is_goal: H,
) -> bool where F: Fn(&State) -> Vec<Action>, H: Fn(&State) -> bool {
    &&& forall|k: int|
        0 <= k < queue.len() ==> (#[trigger] queue[k].index as int) < nodes.len()
            && nodes[queue[k].index as int].children@.len() == 0 && !order.contains(
            queue[k].index as int,
        )
    &&& forall|a: int, b: int|
        0 <= a < b < queue.len() ==> #[trigger] queue[a].index != #[trigger] queue[b].index
    &&& forall|j: int| 0 < j < nodes.len() ==> #[trigger] goal_answer(nodes, j, is_goal, false)
    &&& forall|j: int|
        0 <= j < nodes.len() ==> #[trigger] pending(queue, j) || expanded_with(
            nodes,
            j,
            get_possible_actions,
        )
    &&& expanded_distinct(nodes, order, get_possible_actions)
}

/// A round that keeps the search running keeps the invariant, with the
/// popped node added to `order`.
proof fn lemma_round_keeps_driver_inv<F, G, H, K>(
    before: Seq<Node>,
    after: Seq<Node>,
    queued: Seq<FrontierEntry>,
    waiting: Seq<FrontierEntry>,
    popped: Option<usize>,
    queue_after: Seq<FrontierEntry>,
    order: Seq<int>,
    strategy: Strategy,
    get_possible_actions: F,
    apply_action: G,
    is_goal: H,
    heuristic: K,
) where
    F: Fn(&State) -> Vec<Action>,
    G: Fn(&State, &Action) -> State,
    H: Fn(&State) -> bool,
    K: Fn(&State) -> u64,

    requires
        well_formed(before),
        driver_inv(before, queued, order, get_possible_actions, is_goal),
        round_outcome(
            before,
            after,
            queued,
            waiting,
            popped,
            queue_after,
            strategy,
            SearchStatus::Running,
            &get_possible_actions,
            &apply_action,
            &is_goal,
            &heuristic,
        ),
    ensures
        popped is Some,
        after[0].state == before[0].state,
        driver_inv(
            after,
            queue_after,
            order.push(popped.unwrap() as int),
            get_possible_actions,
            is_goal,
        ),
{
    reveal(driver_inv);
    let len = before.len() as int;
    let n = popped.unwrap() as int;
    let new_order = order.push(n);
    let m = choose|m: int|
        {
            &&& crate::frontier::first_min(queued, m)
            &&& popped == Some(queued[m].index)
            &&& waiting == queued.remove(m)
        };
    let acts = choose|actions: Vec<Action>|
        {
            &&& #[trigger] get_possible_actions.ensures((&before[n].state,), actions)
            &&& expanded(before, after, n, actions@, new_indices(len, actions@.len() as int))
            &&& forall|k: int|
                0 <= k < actions@.len() ==> apply_action.ensures(
                    (&before[n].state, &actions@[k]),
                    #[trigger] after[len + k].state,
                )
            &&& queue_after.len() >= waiting.len()
            &&& queue_after.subrange(0, waiting.len() as int) == waiting
            &&& children_queued(
                after,
                len,
                queue_after.subrange(waiting.len() as int, queue_after.len() as int),
                strategy,
                &heuristic,
            )
            &&& match SearchStatus::Running {
                SearchStatus::Running => {
                    &&& queue_after.len() == waiting.len() + actions@.len()
                    &&& forall|k: int|
                        0 <= k < actions@.len() ==> #[trigger] goal_answer(
                            after,
                            len + k,
                            &is_goal,
                            false,
                        )
                },
                SearchStatus::Succeeded(path) => {
                    let g = queue_after.len() - waiting.len();
                    &&& g < actions@.len()
                    &&& goal_answer(after, len + g, &is_goal, true)
                    &&& forall|k: int|
                        0 <= k < g ==> #[trigger] goal_answer(after, len + k, &is_goal, false)
                    &&& action_views(path@) == action_views(path_actions(after, len + g))
                },
                SearchStatus::Failed(_) => false,
            }
        };
    let news = new_indices(len, acts@.len() as int);
    {
        assert(n < before.len());
        assert(before[n].children@.len() == 0);
        assert forall|k: int| 0 <= k < waiting.len() implies #[trigger] waiting[k].index != n
            && (waiting[k].index as int) < before.len() && before[waiting[k].index as int].children@.len() == 0
            && !order.contains(waiting[k].index as int) by {
            if k < m {
                assert(waiting[k] == queued[k]);
            } else {
                assert(waiting[k] == queued[k + 1]);
            }
        }
        assert(after[0].state == before[0].state) by {
            if n != 0 {
                assert(after[0] == before[0]);
            }
        }
        assert forall|j: int| 0 < j < len implies #[trigger] goal_answer(
            after,
            j,
            is_goal,
            false,
        ) by {
            assert(goal_answer(before, j, is_goal, false));
            if j != n {
                assert(after[j] == before[j]);
            }
        }
    }

    {
        let added = queue_after.subrange(waiting.len() as int, queue_after.len() as int);
        assert forall|k: int| 0 <= k < queue_after.len() implies #[trigger] queue_after[k]
            == (if k < waiting.len() {
            waiting[k]
        } else {
            added[k - waiting.len()]
        }) by {
            if k < waiting.len() {
                assert(queue_after.subrange(0, waiting.len() as int)[k] == queue_after[k]);
            }
        }
        assert forall|q: int| 0 <= q < added.len() implies (#[trigger] added[q]).index == len + q
            && after[len + q].children@.len() == 0 by {
            assert(news[q] == len + q);
        }
        assert forall|j: int| 0 <= j < len implies #[trigger] pending(waiting, j)
            || expanded_with(after, j, get_possible_actions) by {
            if j == n {
                assert(after[j].children@ =~= news);
                assert forall|k: int| 0 <= k < acts@.len() implies after[after[j].children@[k] as int].action
                    == Some(#[trigger] acts@[k]) by {
                    assert(news[k] == len + k);
                }
                assert(get_possible_actions.ensures((&after[j].state,), acts));
            } else if pending(queued, j) {
                let k = choose|k: int| 0 <= k < queued.len() && queued[k].index == j;
                assert(k != m);
                if k < m {
                    assert(waiting[k] == queued[k]);
                } else {
                    assert(waiting[k - 1] == queued[k]);
                }
            } else {
                lemma_expanded_kept(before, after, n, acts@, news, get_possible_actions, j);
            }
        }
        assert(!order.contains(n)) by {
            assert(queued[m].index == n);
        }
        assert forall|k: int| 0 <= k < order.len() implies 0 <= #[trigger] order[k] < after.len()
            && expanded_with(after, order[k], get_possible_actions) by {
            if order[k] != n {
                lemma_expanded_kept(before, after, n, acts@, news, get_possible_actions, order[k]);
            }
        }
        assert(expanded_distinct(after, new_order, get_possible_actions)) by {
            assert(pending(waiting, n) || expanded_with(after, n, get_possible_actions));
            if pending(waiting, n) {
                let k = choose|k: int| 0 <= k < waiting.len() && waiting[k].index == n;
            }
            assert forall|k: int| 0 <= k < new_order.len() implies 0 <= #[trigger] new_order[k] < after.len()
                && expanded_with(after, new_order[k], get_possible_actions) by {
                if k < new_order.len() - 1 {
                    assert(new_order[k] == order[k]);
                }
            }
        }
        assert forall|k: int| 0 <= k < queue_after.len() implies (#[trigger] queue_after[k].index as int)
            < after.len() && after[queue_after[k].index as int].children@.len() == 0
            && !new_order.contains(queue_after[k].index as int) by {
            if k < waiting.len() {
                let j = waiting[k].index as int;
                assert(after[j] == before[j]);
                assert(order.contains(j) == false);
                if new_order.contains(j) {
                    let p = choose|p: int| 0 <= p < new_order.len() && new_order[p] == j;
                    if p < order.len() {
                        assert(order[p] == j);
                    }
                }
            } else {
                let q = k - waiting.len();
                assert(added[q].index == len + q);
                if new_order.contains(len + q) {
                    let p = choose|p: int| 0 <= p < new_order.len() && new_order[p] == len + q;
                    if p < order.len() {
                        assert(order[p] < before.len());
                    }
                }
            }
        }
        assert forall|a: int, b: int| 0 <= a < b < queue_after.len() implies #[trigger] queue_after[a].index
            != #[trigger] queue_after[b].index by {
            if b < waiting.len() {
                if a < m && b >= m {
                    assert(waiting[a] == queued[a]);
                    assert(waiting[b] == queued[b + 1]);
                } else if b < m {
                    assert(waiting[a] == queued[a]);
                    assert(waiting[b] == queued[b]);
                } else {
                    assert(waiting[a] == queued[a + 1]);
                    assert(waiting[b] == queued[b + 1]);
                }
            } else if a < waiting.len() {
                let q = b - waiting.len();
                assert(added[q].index == len + q);
            } else {
                let qa = a - waiting.len();
                let qb = b - waiting.len();
                assert(added[qa].index == len + qa);
                assert(added[qb].index == len + qb);
            }
        }
        assert forall|j: int| 0 <= j < after.len() implies #[trigger] pending(queue_after, j)
            || expanded_with(after, j, get_possible_actions) by {
            if j < len {
                if pending(waiting, j) {
                    let k = choose|k: int| 0 <= k < waiting.len() && waiting[k].index == j;
                    assert(queue_after[k] == waiting[k]);
                }
            } else {
                let q = j - len;
                assert(added[q].index == len + q);
                assert(queue_after[waiting.len() + q] == added[q]);
            }
        }
        assert forall|j: int| 0 < j < after.len() implies #[trigger] goal_answer(
            after,
            j,
            is_goal,
            false,
        ) by {
            if j >= len {
                assert(goal_answer(after, len + (j - len), &is_goal, false));
            }
        }
    }

}

/// A round that fails leaves the tree as it was, every node of it expanded
/// and none a goal.
proof fn lemma_failed_round<F, G, H, K>(
    before: Seq<Node>,
    after: Seq<Node>,
    queued: Seq<FrontierEntry>,
    waiting: Seq<FrontierEntry>,
    popped: Option<usize>,
    queue_after: Seq<FrontierEntry>,
    order: Seq<int>,
    strategy: Strategy,
    failure: SearchFailure,
    get_possible_actions: F,
    apply_action: G,
    is_goal: H,
    heuristic: K,
) where
    F: Fn(&State) -> Vec<Action>,
    G: Fn(&State, &Action) -> State,
    H: Fn(&State) -> bool,
    K: Fn(&State) -> u64,

    requires
        driver_inv(before, queued, order, get_possible_actions, is_goal),
        round_outcome(
            before,
            after,
            queued,
            waiting,
            popped,
            queue_after,
            strategy,
            SearchStatus::Failed(failure),
            &get_possible_actions,
            &apply_action,
            &is_goal,
            &heuristic,
        ),
    ensures
        failure == SearchFailure::NoSolution,
        after == before,
        forall|j: int| 0 < j < after.len() ==> #[trigger] goal_answer(after, j, is_goal, false),
        forall|j: int|
            0 <= j < after.len() ==> #[trigger] expanded_with(after, j, get_possible_actions),
{
    reveal(driver_inv);
    assert(popped is None);
    if queued.len() > 0 {
        let m = choose|m: int|
            {
                &&& crate::frontier::first_min(queued, m)
                &&& popped == Some(queued[m].index)
                &&& waiting == queued.remove(m)
            };
    }
    assert forall|j: int| 0 <= j < after.len() implies #[trigger] expanded_with(
        after,
        j,
        get_possible_actions,
    ) by {
        assert(!pending(queued, j));
    }
}

/// A round that finds a goal ends on the first goal among the new children:
/// every node created before it is no goal, and the result is its path.
proof fn lemma_goal_round<F, G, H, K>(
    before: Seq<Node>,
    after: Seq<Node>,
    queued: Seq<FrontierEntry>,
    waiting: Seq<FrontierEntry>,
    popped: Option<usize>,
    queue_after: Seq<FrontierEntry>,
    order: Seq<int>,
    strategy: Strategy,
    path: Vec<Action>,
    get_possible_actions: F,
    apply_action: G,
    is_goal: H,
    heuristic: K,
) where
    F: Fn(&State) -> Vec<Action>,
    G: Fn(&State, &Action) -> State,
    H: Fn(&State) -> bool,
    K: Fn(&State) -> u64,

    requires
        well_formed(before),
        driver_inv(before, queued, order, get_possible_actions, is_goal),
        round_outcome(
            before,
            after,
            queued,
            waiting,
            popped,
            queue_after,
            strategy,
            SearchStatus::Succeeded(path),
            &get_possible_actions,
            &apply_action,
            &is_goal,
            &heuristic,
        ),
    ensures
        after[0].state == before[0].state,
        exists|g: int|
            {
                &&& 0 < g < after.len()
                &&& goal_answer(after, g, is_goal, true)
                &&& forall|j: int| 0 < j < g ==> #[trigger] goal_answer(after, j, is_goal, false)
                &&& action_views(path@) == action_views(path_actions(after, g))
            },
{
    reveal(driver_inv);
    let len = before.len() as int;
    let n = popped.unwrap() as int;
    let acts = choose|actions: Vec<Action>|
        {
            &&& #[trigger] get_possible_actions.ensures((&before[n].state,), actions)
            &&& expanded(before, after, n, actions@, new_indices(len, actions@.len() as int))
            &&& forall|k: int|
                0 <= k < actions@.len() ==> apply_action.ensures(
                    (&before[n].state, &actions@[k]),
                    #[trigger] after[len + k].state,
                )
            &&& queue_after.len() >= waiting.len()
            &&& queue_after.subrange(0, waiting.len() as int) == waiting
            &&& children_queued(
                after,
                len,
                queue_after.subrange(waiting.len() as int, queue_after.len() as int),
                strategy,
                &heuristic,
            )
            &&& {
                let g = queue_after.len() - waiting.len();
                &&& g < actions@.len()
                &&& goal_answer(after, len + g, &is_goal, true)
                &&& forall|k: int|
                    0 <= k < g ==> #[trigger] goal_answer(after, len + k, &is_goal, false)
                &&& action_views(path@) == action_views(path_actions(after, len + g))
            }
        };
    assert(n < before.len()) by {
        let m = choose|m: int|
            {
                &&& crate::frontier::first_min(queued, m)
                &&& popped == Some(queued[m].index)
                &&& waiting == queued.remove(m)
            };
        assert((queued[m].index as int) < before.len());
    }
    assert(after[0].state == before[0].state) by {
        if n != 0 {
            assert(after[0] == before[0]);
        }
    }
    let g = len + queue_after.len() - waiting.len();
    assert forall|j: int| 0 < j < g implies #[trigger] goal_answer(after, j, is_goal, false) by {
        if j >= len {
            assert(goal_answer(after, len + (j - len), &is_goal, false));
        } else {
            assert(goal_answer(before, j, is_goal, false));
            if j != n {
                assert(after[j] == before[j]);
            }
        }
    }
    assert(goal_answer(after, g, is_goal, true));
}

/// Round `i` of a run took tree `trees[i]` and frontier `queues[i]` to
/// `trees[i + 1]` and `queues[i + 1]`, and the search went on.
pub open spec fn round_ran<F, G, H, K>(
    trees: Seq<Seq<Node>>,
    queues: Seq<Seq<FrontierEntry>>,
    i: int,
    strategy: Strategy,
    get_possible_actions: F,
    apply_action: G,
    is_goal: H,
    heuristic: K,
) -> bool where
    F: Fn(&State) -> Vec<Action>,
    G: Fn(&State, &Action) -> State,
    H: Fn(&State) -> bool,
    K: Fn(&State) -> u64,
 {
    exists|waiting: Seq<FrontierEntry>, popped: Option<usize>|
        #[trigger] round_outcome(
            trees[i],
            trees[i + 1],
            queues[i],
            waiting,
            popped,
            queues[i + 1],
            strategy,
            SearchStatus::Running,
            get_possible_actions,
            apply_action,
            is_goal,
            heuristic,
        )
}

/// `trees` and `queues` record a run: the tree and the frontier before each
/// round and after the last, each round but the last keeping the search
/// running.
pub open spec fn rounds_ran<F, G, H, K>(
    trees: Seq<Seq<Node>>,
    queues: Seq<Seq<FrontierEntry>>,
    strategy: Strategy,
    get_possible_actions: F,
    apply_action: G,
    is_goal: H,
    heuristic: K,
) -> bool where
    F: Fn(&State) -> Vec<Action>,
    G: Fn(&State, &Action) -> State,
    H: Fn(&State) -> bool,
    K: Fn(&State) -> u64,
 {
    &&& trees.len() == queues.len()
    &&& trees.len() >= 1
    &&& forall|i: int|
        0 <= i < trees.len() - 1 ==> #[trigger] round_ran(
            trees,
            queues,
            i,
            strategy,
            get_possible_actions,
            apply_action,
            is_goal,
            heuristic,
        )
}

/// Entries queued with estimates from a reference to `heuristic` are queued
/// with estimates from `heuristic` itself.
proof fn lemma_children_queued_deref<K: Fn(&State) -> u64>(
    nodes: Seq<Node>,
    len: int,
    entries: Seq<FrontierEntry>,
    strategy: Strategy,
    heuristic: K,
)
    requires
        children_queued(nodes, len, entries, strategy, &heuristic),
    ensures
        children_queued(nodes, len, entries, strategy, heuristic),
{
    assert forall|k: int| 0 <= k < entries.len() implies {
        &&& (#[trigger] entries[k]).index == len + k
        &&& exists|h: u64|
            {
                &&& #[trigger] heuristic.ensures((&nodes[len + k].state,), h)
                &&& entries[k].priority == priority_of(strategy, nodes[len + k].cost as int, h as int)
            }
    } by {
        let h = choose|h: u64|
            {
                &&& #[trigger] (&heuristic).ensures((&nodes[len + k].state,), h)
                &&& entries[k].priority == priority_of(strategy, nodes[len + k].cost as int, h as int)
            };
        assert((&heuristic).ensures((&nodes[len + k].state,), h));
        assert(heuristic.ensures((&nodes[len + k].state,), h));
    }
}

/// A round's outcome stated for references to the closures holds for the
/// closures themselves.
proof fn lemma_round_outcome_deref<F, G, H, K>(
    before: Seq<Node>,
    after: Seq<Node>,
    queued: Seq<FrontierEntry>,
    waiting: Seq<FrontierEntry>,
    popped: Option<usize>,
    queue_after: Seq<FrontierEntry>,
    strategy: Strategy,
    r: SearchStatus,
    get_possible_actions: F,
    apply_action: G,
    is_goal: H,
    heuristic: K,
) where
    F: Fn(&State) -> Vec<Action>,
    G: Fn(&State, &Action) -> State,
    H: Fn(&State) -> bool,
    K: Fn(&State) -> u64,

    requires
        round_outcome(
            before,
            after,
            queued,
            waiting,
            popped,
            queue_after,
            strategy,
            r,
            &get_possible_actions,
            &apply_action,
            &is_goal,
            &heuristic,
        ),
    ensures
        round_outcome(
            before,
            after,
            queued,
            waiting,
            popped,
            queue_after,
            strategy,
            r,
            get_possible_actions,
            apply_action,
            is_goal,
            heuristic,
        ),
{
    if popped is Some {
        let n = popped.unwrap() as int;
        let len = before.len() as int;
        let added = queue_after.subrange(waiting.len() as int, queue_after.len() as int);
        let acts = choose|actions: Vec<Action>|
            {
                &&& #[trigger] (&get_possible_actions).ensures((&before[n].state,), actions)
                &&& expanded(before, after, n, actions@, new_indices(len, actions@.len() as int))
                &&& forall|k: int|
                    0 <= k < actions@.len() ==> (&apply_action).ensures(
                        (&before[n].state, &actions@[k]),
                        #[trigger] after[len + k].state,
                    )
                &&& queue_after.len() >= waiting.len()
                &&& queue_after.subrange(0, waiting.len() as int) == waiting
                &&& children_queued(after, len, added, strategy, &heuristic)
                &&& match r {
                    SearchStatus::Running => {
                        &&& queue_after.len() == waiting.len() + actions@.len()
                        &&& forall|k: int|
                            0 <= k < actions@.len() ==> #[trigger] goal_answer(
                                after,
                                len + k,
                                &is_goal,
                                false,
                            )
                    },
                    SearchStatus::Succeeded(path) => {
                        let g = queue_after.len() - waiting.len();
                        &&& g < actions@.len()
                        &&& goal_answer(after, len + g, &is_goal, true)
                        &&& forall|k: int|
                            0 <= k < g ==> #[trigger] goal_answer(after, len + k, &is_goal, false)
                        &&& action_views(path@) == action_views(path_actions(after, len + g))
                    },
                    SearchStatus::Failed(_) => false,
                }
            };
        assert(get_possible_actions.ensures((&before[n].state,), acts));
        assert forall|k: int| 0 <= k < acts@.len() implies apply_action.ensures(
            (&before[n].state, &acts@[k]),
            #[trigger] after[len + k].state,
        ) by {
            assert((&apply_action).ensures((&before[n].state, &acts@[k]), after[len + k].state));
        }
        lemma_children_queued_deref(after, len, added, strategy, heuristic);
        match r {
            SearchStatus::Running => {
                assert forall|k: int| 0 <= k < acts@.len() implies #[trigger] goal_answer(
                    after,
                    len + k,
                    is_goal,
                    false,
                ) by {
                    assert(goal_answer(after, len + k, &is_goal, false));
                }
            },
            SearchStatus::Succeeded(path) => {
                let g = queue_after.len() - waiting.len();
                assert(goal_answer(after, len + g, &is_goal, true));
                assert(goal_answer(after, len + g, is_goal, true));
                assert forall|k: int| 0 <= k < g implies #[trigger] goal_answer(
                    after,
                    len + k,
                    is_goal,
                    false,
                ) by {
                    assert(goal_answer(after, len + k, &is_goal, false));
                }
            },
            SearchStatus::Failed(_) => {},
        }
    }
}

/// A run recorded for references to the closures is one for the closures
/// themselves.
proof fn lemma_rounds_ran_deref<F, G, H, K>(
    trees: Seq<Seq<Node>>,
    queues: Seq<Seq<FrontierEntry>>,
    strategy: Strategy,
    get_possible_actions: F,
    apply_action: G,
    is_goal: H,
    heuristic: K,
) where
    F: Fn(&State) -> Vec<Action>,
    G: Fn(&State, &Action) -> State,
    H: Fn(&State) -> bool,
    K: Fn(&State) -> u64,

    requires
        rounds_ran(
            trees,
            queues,
            strategy,
            &get_possible_actions,
            &apply_action,
            &is_goal,
            &heuristic,
        ),
    ensures
        rounds_ran(trees, queues, strategy, get_possible_actions, apply_action, is_goal, heuristic),
{
    assert forall|i: int| 0 <= i < trees.len() - 1 implies #[trigger] round_ran(
        trees,
        queues,
        i,
        strategy,
        get_possible_actions,
        apply_action,
        is_goal,
        heuristic,
    ) by {
        assert(round_ran(
            trees,
            queues,
            i,
            strategy,
            &get_possible_actions,
            &apply_action,
            &is_goal,
            &heuristic,
        ));
        let (waiting, popped) = choose|waiting: Seq<FrontierEntry>, popped: Option<usize>|
            #[trigger] round_outcome(
                trees[i],
                trees[i + 1],
                queues[i],
                waiting,
                popped,
                queues[i + 1],
                strategy,
                SearchStatus::Running,
                &get_possible_actions,
                &apply_action,
                &is_goal,
                &heuristic,
            );
        lemma_round_outcome_deref(
            trees[i],
            trees[i + 1],
            queues[i],
            waiting,
            popped,
            queues[i + 1],
            strategy,
            SearchStatus::Running,
            get_possible_actions,
            apply_action,
            is_goal,
            heuristic,
        );
    }
}

/// The frontier a search starts with: the root alone, at cost 0 with an
/// estimate that `heuristic` gave for the root's state.
pub open spec fn start_queue<K: Fn(&State) -> u64>(
    nodes: Seq<Node>,
    queue: Seq<FrontierEntry>,
    strategy: Strategy,
    heuristic: K,
) -> bool {
    exists|h: u64|
        {
            &&& #[trigger] heuristic.ensures((&nodes[0].state,), h)
            &&& queue == seq![
                FrontierEntry { index: 0, priority: priority_of(strategy, 0, h as int) as i128 },
            ]
        }
}

/// Runs a tree search from the root of `tree`, which holds only its root.
///
/// The frontier, ordered by `strategy`, starts with the root. Each round
/// pops one node and expands it; each new child, in generation order, is
/// tested with `is_goal` at once: the first goal ends the search with the
/// actions that lead to it, even where other entries of the frontier would
/// come first. Because goals are tested when generated rather than when
/// popped, the cost-informed strategy need not return a cheapest path: a
/// costly goal generated first wins over a cheaper one found later. A child
/// that is no goal joins the frontier with its path cost and the estimate
/// `heuristic` gives for it. The root itself is never tested. Revisited states are not detected: this is a tree search, and
/// `max_expansions` bounds the number of rounds.
pub fn generic_search<F, G, H, K>(
    tree: &mut SearchTree,
    get_possible_actions: F,
    apply_action: G,
    is_goal: H,
    strategy: Strategy,
    heuristic: K,
    max_expansions: usize,
) -> (r: Result<Vec<Action>, SearchFailure>) where
    F: Fn(&State) -> Vec<Action>,
    G: Fn(&State, &Action) -> State,
    H: Fn(&State) -> bool,
    K: Fn(&State) -> u64,

    requires
        old(tree).wf(),
        old(tree)@.len() == 1,
        forall|s: &State| get_possible_actions.requires((s,)),
        forall|s: &State, a: &Action| apply_action.requires((s, a)),
        forall|s: &State| is_goal.requires((s,)),
        forall|s: &State| heuristic.requires((s,)),
    ensures
        final(tree).wf(),
        final(tree)@[0].state == old(tree)@[0].state,
        exists|trees: Seq<Seq<Node>>, queues: Seq<Seq<FrontierEntry>>|
            {
                &&& #[trigger] rounds_ran(
                    trees,
                    queues,
                    strategy,
                    get_possible_actions,
                    apply_action,
                    is_goal,
                    heuristic,
                )
                &&& trees[0] == old(tree)@
                &&& start_queue(old(tree)@, queues[0], strategy, heuristic)
                &&& match r {
                    Ok(path) => {
                        &&& trees.len() <= max_expansions
                        &&& exists|
                            waiting: Seq<FrontierEntry>,
                            popped: Option<usize>,
                            queue: Seq<FrontierEntry>,
                            last: SearchStatus,
                        |
                            #[trigger] round_outcome(
                                trees.last(),
                                final(tree)@,
                                queues.last(),
                                waiting,
                                popped,
                                queue,
                                strategy,
                                last,
                                get_possible_actions,
                                apply_action,
                                is_goal,
                                heuristic,
                            ) && last == SearchStatus::Succeeded(path)
                    },
                    Err(SearchFailure::NoSolution) => {
                        &&& trees.len() <= max_expansions
                        &&& exists|waiting: Seq<FrontierEntry>, popped: Option<usize>, queue: Seq<FrontierEntry>|
                            #[trigger] round_outcome(
                                trees.last(),
                                final(tree)@,
                                queues.last(),
                                waiting,
                                popped,
                                queue,
                                strategy,
                                SearchStatus::Failed(SearchFailure::NoSolution),
                                get_possible_actions,
                                apply_action,
                                is_goal,
                                heuristic,
                            )
                    },
                    Err(SearchFailure::BudgetExhausted) => {
                        &&& trees.len() == max_expansions + 1
                        &&& trees.last() == final(tree)@
                    },
                }
            },
        match r {
            Ok(path) => exists|g: int|
                {
                    &&& 0 < g < final(tree)@.len()
                    &&& goal_answer(final(tree)@, g, is_goal, true)
                    &&& forall|j: int|
                        0 < j < g ==> #[trigger] goal_answer(final(tree)@, j, is_goal, false)
                    &&& action_views(path@) == action_views(path_actions(final(tree)@, g))
                },
            Err(SearchFailure::NoSolution) => {
                &&& forall|j: int|
                    0 < j < final(tree)@.len() ==> #[trigger] goal_answer(
                        final(tree)@,
                        j,
                        is_goal,
                        false,
                    )
                &&& forall|j: int|
                    0 <= j < final(tree)@.len() ==> #[trigger] expanded_with(
                        final(tree)@,
                        j,
                        get_possible_actions,
                    )
            },
            Err(SearchFailure::BudgetExhausted) => {
                &&& forall|j: int|
                    0 < j < final(tree)@.len() ==> #[trigger] goal_answer(
                        final(tree)@,
                        j,
                        is_goal,
                        false,
                    )
                &&& exists|order: Seq<int>| #[trigger]
                    expanded_distinct(final(tree)@, order, get_possible_actions)
                        && order.len() == max_expansions
            },
        },
{
    let ghost root_state = old(tree)@[0].state;
    let mut frontier = Frontier::new(strategy);
    let root = tree.get_node(0).unwrap();
    let h0 = heuristic(&root.state);
    frontier.insert(0, 0, h0);
    let mut expansions: usize = 0;
    let ghost mut order: Seq<int> = Seq::empty();
    let ghost mut trees: Seq<Seq<Node>> = seq![tree@];
    let ghost mut queues: Seq<Seq<FrontierEntry>> = seq![frontier@];
    assert(start_queue(old(tree)@, queues[0], strategy, heuristic)) by {
        assert(heuristic.ensures((&old(tree)@[0].state,), h0));
        assert(queues[0] =~= seq![
            FrontierEntry { index: 0, priority: priority_of(strategy, 0, h0 as int) as i128 },
        ]);
    }
    assert(driver_inv(tree@, frontier@, order, get_possible_actions, is_goal)) by {
        reveal(driver_inv);
        assert(frontier@[0].index == 0);
        assert(pending(frontier@, 0));
        assert(node_ok(tree@, 0));
        let ch = tree@[0].children@;
        if ch.len() > 0 {
            assert(node_ok(tree@, ch[0] as int));
        }
    }
    while expansions < max_expansions
        invariant
            rounds_ran(
                trees,
                queues,
                strategy,
                &get_possible_actions,
                &apply_action,
                &is_goal,
                &heuristic,
            ),
            trees.len() == expansions + 1,
            trees[0] == old(tree)@,
            start_queue(old(tree)@, queues[0], strategy, heuristic),
            trees.last() == tree@,
            queues.last() == frontier@,
            expansions <= max_expansions,
            order.len() == expansions,
            driver_inv(tree@, frontier@, order, get_possible_actions, is_goal),
            tree.wf(),
            root_state == old(tree)@[0].state,
            tree@[0].state == root_state,
            frontier.wf(),
            frontier.kind() == strategy,
            forall|k: int| 0 <= k < frontier@.len() ==> (#[trigger] frontier@[k]).index < tree@.len(),
            forall|s: &State| get_possible_actions.requires((s,)),
            forall|s: &State, a: &Action| apply_action.requires((s, a)),
            forall|s: &State| is_goal.requires((s,)),
            forall|s: &State| heuristic.requires((s,)),
        decreases max_expansions - expansions,
    {
        let ghost before = tree@;
        let ghost queued = frontier@;
        let status = search_round(
            tree,
            &mut frontier,
            &get_possible_actions,
            &apply_action,
            &is_goal,
            &heuristic,
        );
        let ghost after = tree@;
        let ghost (waiting, popped) = choose|waiting: Seq<FrontierEntry>, popped: Option<usize>|
            round_outcome(
                before,
                after,
                queued,
                waiting,
                popped,
                frontier@,
                strategy,
                status,
                &get_possible_actions,
                &apply_action,
                &is_goal,
                &heuristic,
            );
        match status {
            SearchStatus::Failed(failure) => {
                proof {
                    lemma_failed_round(
                        before,
                        after,
                        queued,
                        waiting,
                        popped,
                        frontier@,
                        order,
                        strategy,
                        failure,
                        get_possible_actions,
                        apply_action,
                        is_goal,
                        heuristic,
                    );
                    assert(round_outcome(
                        trees.last(),
                        tree@,
                        queues.last(),
                        waiting,
                        popped,
                        frontier@,
                        strategy,
                        SearchStatus::Failed(SearchFailure::NoSolution),
                        &get_possible_actions,
                        &apply_action,
                        &is_goal,
                        &heuristic,
                    ));
                    lemma_round_outcome_deref(
                        trees.last(),
                        tree@,
                        queues.last(),
                        waiting,
                        popped,
                        frontier@,
                        strategy,
                        SearchStatus::Failed(SearchFailure::NoSolution),
                        get_possible_actions,
                        apply_action,
                        is_goal,
                        heuristic,
                    );
                    lemma_rounds_ran_deref(
                        trees,
                        queues,
                        strategy,
                        get_possible_actions,
                        apply_action,
                        is_goal,
                        heuristic,
                    );
                }
                return Err(failure);
            },
            SearchStatus::Succeeded(path) => {
                proof {
                    lemma_goal_round(
                        before,
                        after,
                        queued,
                        waiting,
                        popped,
                        frontier@,
                        order,
                        strategy,
                        path,
                        get_possible_actions,
                        apply_action,
                        is_goal,
                        heuristic,
                    );
                    assert(round_outcome(
                        trees.last(),
                        tree@,
                        queues.last(),
                        waiting,
                        popped,
                        frontier@,
                        strategy,
                        SearchStatus::Succeeded(path),
                        &get_possible_actions,
                        &apply_action,
                        &is_goal,
                        &heuristic,
                    ));
                    lemma_round_outcome_deref(
                        trees.last(),
                        tree@,
                        queues.last(),
                        waiting,
                        popped,
                        frontier@,
                        strategy,
                        SearchStatus::Succeeded(path),
                        get_possible_actions,
                        apply_action,
                        is_goal,
                        heuristic,
                    );
                    lemma_rounds_ran_deref(
                        trees,
                        queues,
                        strategy,
                        get_possible_actions,
                        apply_action,
                        is_goal,
                        heuristic,
                    );
                }
                return Ok(path);
            },
            SearchStatus::Running => {},
        }
        proof {
            lemma_round_keeps_driver_inv(
                before,
                after,
                queued,
                waiting,
                popped,
                frontier@,
                order,
                strategy,
                get_possible_actions,
                apply_action,
                is_goal,
                heuristic,
            );
            order = order.push(popped.unwrap() as int);
            let old_trees = trees;
            let old_queues = queues;
            trees = trees.push(after);
            queues = queues.push(frontier@);
            assert forall|i: int| 0 <= i < trees.len() - 1 implies #[trigger] round_ran(
                trees,
                queues,
                i,
                strategy,
                &get_possible_actions,
                &apply_action,
                &is_goal,
                &heuristic,
            ) by {
                if i < old_trees.len() - 1 {
                    assert(round_ran(
                        old_trees,
                        old_queues,
                        i,
                        strategy,
                        &get_possible_actions,
                        &apply_action,
                        &is_goal,
                        &heuristic,
                    ));
                    assert(trees[i] == old_trees[i]);
                    assert(trees[i + 1] == old_trees[i + 1]);
                    assert(queues[i] == old_queues[i]);
                    assert(queues[i + 1] == old_queues[i + 1]);
                } else {
                    assert(trees[i] == before);
                    assert(queues[i] == queued);
                    assert(trees[i + 1] == after);
                    assert(queues[i + 1] == frontier@);
                }
            }
            assert(trees[0] == old_trees[0]);
            assert(queues[0] == old_queues[0]);
        }
        expansions = expansions + 1;
    }
    proof {
        reveal(driver_inv);
        lemma_rounds_ran_deref(
            trees,
            queues,
            strategy,
            get_possible_actions,
            apply_action,
            is_goal,
            heuristic,
        );
    }
    Err(SearchFailure::BudgetExhausted)
}

} // verus!
