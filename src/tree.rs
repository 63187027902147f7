use crate::action::{Action, ActionView};
use crate::node::Node;
use crate::state::State;
use vstd::prelude::*;

verus! {

/// The largest magnitude of an action's cost.
pub open spec fn cost_step() -> int {
    0x8000_0000
}

/// The parent index recorded at node `i`.
pub open spec fn parent_of(nodes: Seq<Node>, i: int) -> int {
    nodes[i].parent.unwrap() as int
}

/// Node `i` is linked as the arena requires: the root has no parent, no
/// action and cost 0; any other node has a parent created before it, the
/// action that produced it, and the parent's cost plus that action's cost.
pub open spec fn node_linked(nodes: Seq<Node>, i: int) -> bool {
    if i == 0 {
        &&& nodes[0].parent is None
        &&& nodes[0].action is None
        &&& nodes[0].cost == 0
    } else {
        &&& nodes[i].parent is Some
        &&& parent_of(nodes, i) < i
        &&& nodes[i].action is Some
        &&& nodes[i].cost == nodes[parent_of(nodes, i)].cost + nodes[i].action.unwrap().cost
    }
}

/// The children of node `n` are exactly the nodes whose parent is `n`, in
/// the order they were created.
pub open spec fn children_listed(nodes: Seq<Node>, n: int) -> bool {
    let ch = nodes[n].children@;
    &&& forall|a: int, b: int| 0 <= a < b < ch.len() ==> ch[a] < ch[b]
    &&& forall|k: int|
        0 <= k < ch.len() ==> (#[trigger] ch[k] as int) < nodes.len() && nodes[ch[k] as int].parent
            == Some(n as usize)
    &&& forall|j: int|
        0 <= j < nodes.len() && #[trigger] nodes[j].parent == Some(n as usize) ==> ch.contains(
            j as usize,
        )
}

/// A node's cost is at most its index times the largest action cost, in
/// magnitude; so it always fits an `i128`.
pub open spec fn cost_bounded(nodes: Seq<Node>, i: int) -> bool {
    -(i * cost_step()) <= nodes[i].cost <= i * cost_step()
}

/// Node `i` meets the arena invariant.
pub open spec fn node_ok(nodes: Seq<Node>, i: int) -> bool {
    &&& node_linked(nodes, i)
    &&& children_listed(nodes, i)
    &&& cost_bounded(nodes, i)
}

/// The arena invariant of a search tree.
pub open spec fn well_formed(nodes: Seq<Node>) -> bool {
    &&& nodes.len() > 0
    &&& forall|i: int| 0 <= i < nodes.len() ==> #[trigger] node_ok(nodes, i)
}

/// The actions on the way from the root to node `i`, root side first.
pub open spec fn path_actions(nodes: Seq<Node>, i: int) -> Seq<Action>
    decreases i,
{
    if 0 < i < nodes.len() && nodes[i].parent is Some && parent_of(nodes, i) < i {
        path_actions(nodes, parent_of(nodes, i)).push(nodes[i].action.unwrap())
    } else {
        Seq::empty()
    }
}

/// The sum of the costs of a sequence of actions.
pub open spec fn total_cost(actions: Seq<Action>) -> int
    decreases actions.len(),
{
    if actions.len() == 0 {
        0
    } else {
        total_cost(actions.drop_last()) + actions.last().cost
    }
}

/// The views of a sequence of actions.
pub open spec fn action_views(actions: Seq<Action>) -> Seq<ActionView> {
    actions.map_values(|a: Action| a@)
}

/// `after` is `before` with one node appended as the last child of `p`,
/// reached by `action`, at the parent's cost plus the action's.
pub open spec fn child_appended(before: Seq<Node>, after: Seq<Node>, p: int, action: Action) -> bool {
    let r = before.len() as int;
    &&& after.len() == r + 1
    &&& forall|j: int| 0 <= j < r && j != p ==> #[trigger] after[j] == before[j]
    &&& after[p].state == before[p].state
    &&& after[p].parent == before[p].parent
    &&& after[p].action == before[p].action
    &&& after[p].cost == before[p].cost
    &&& after[p].children@ == before[p].children@.push(r as usize)
    &&& after[r].parent == Some(p as usize)
    &&& after[r].action == Some(action)
    &&& after[r].cost == before[p].cost + action.cost
    &&& after[r].children@.len() == 0
}

/// The indentation one level below `indent`.
pub open spec fn deeper(indent: int) -> int {
    if indent + 4 <= usize::MAX {
        indent + 4
    } else {
        usize::MAX as int
    }
}

/// The subtree under node `n` in depth-first order, children in creation
/// order, each node paired with its indentation.
pub open spec fn preorder(nodes: Seq<Node>, n: int, indent: int) -> Seq<(usize, usize)>
    decreases nodes.len() - n, 1int,
{
    if 0 <= n < nodes.len() {
        seq![(n as usize, indent as usize)] + children_preorder(
            nodes,
            n,
            nodes[n].children@.len() as int,
            deeper(indent),
        )
    } else {
        Seq::empty()
    }
}

/// The subtrees under the first `count` children of node `n`, one after the
/// other.
pub open spec fn children_preorder(nodes: Seq<Node>, n: int, count: int, indent: int) -> Seq<
    (usize, usize),
>
    decreases nodes.len() - n, 0int, count,
{
    if count <= 0 || count > nodes[n].children@.len() || !(0 <= n < nodes.len()) {
        Seq::empty()
    } else {
        let c = nodes[n].children@[count - 1] as int;
        children_preorder(nodes, n, count - 1, indent) + if n < c < nodes.len() {
            preorder(nodes, c, indent)
        } else {
            Seq::empty()
        }
    }
}

/// `after` is `before` with node `n` expanded by `actions`: one new node per
/// action, appended in order as the last children of `n`, whose indices are
/// `new`; every other node is as it was.
pub open spec fn expanded(
    before: Seq<Node>,
    after: Seq<Node>,
    n: int,
    actions: Seq<Action>,
    new: Seq<usize>,
) -> bool {
    let len = before.len() as int;
    &&& after.len() == len + actions.len()
    &&& new.len() == actions.len()
    &&& forall|j: int| 0 <= j < len && j != n ==> #[trigger] after[j] == before[j]
    &&& after[n].state == before[n].state
    &&& after[n].parent == before[n].parent
    &&& after[n].action == before[n].action
    &&& after[n].cost == before[n].cost
    &&& after[n].children@ == before[n].children@ + new
    &&& forall|k: int|
        0 <= k < actions.len() ==> {
            &&& #[trigger] new[k] == len + k
            &&& after[len + k].parent == Some(n as usize)
            &&& after[len + k].action == Some(actions[k])
            &&& after[len + k].cost == before[n].cost + actions[k].cost
            &&& after[len + k].children@.len() == 0
        }
}

/// An append-only arena of nodes addressed by index; index 0 is the root.
/// Nodes are never removed, so an index stays valid for the tree's life.
pub struct SearchTree {
    nodes: Vec<Node>,
}

impl View for SearchTree {
    type V = Seq<Node>;

    closed spec fn view(&self) -> Seq<Node> {
        self.nodes@
    }
}

impl SearchTree {
    pub open spec fn wf(&self) -> bool {
        well_formed(self@)
    }

    /// A tree holding only the root, which holds `initial_state`.
    pub fn new(initial_state: State) -> (r: SearchTree)
        ensures
            r.wf(),
            r@.len() == 1,
            r@[0].state == initial_state,
            r@[0].children@.len() == 0,
    {
        let root = Node::new_empty(initial_state);
        let r = SearchTree { nodes: vec![root] };
        assert(node_ok(r@, 0));
        r
    }

    /// The number of nodes.
    pub fn len(&self) -> (r: usize)
        ensures
            r == self@.len(),
    {
        self.nodes.len()
    }

    /// The node at `index`, if there is one.
    pub fn get_node(&self, index: usize) -> (r: Option<&Node>)
        ensures
            index < self@.len() ==> r == Some(&self@[index as int]),
            index >= self@.len() ==> r is None,
    {
        if index < self.nodes.len() {
            Some(&self.nodes[index])
        } else {
            None
        }
    }

    /// Appends a child of `parent_index` reached by `action`: its state is
    /// what `apply_action` makes of the parent's state, its cost the parent's
    /// plus the action's. Returns the new index.
    pub fn add_node<F>(&mut self, parent_index: usize, action: Action, apply_action: F) -> (r:
        usize) where F: Fn(&State, &Action) -> State
        requires
            old(self).wf(),
            parent_index < old(self)@.len(),
            apply_action.requires((&old(self)@[parent_index as int].state, &action)),
        ensures
            final(self).wf(),
            r == old(self)@.len(),
            child_appended(old(self)@, final(self)@, parent_index as int, action),
            apply_action.ensures(
                (&old(self)@[parent_index as int].state, &action),
                final(self)@[r as int].state,
            ),
    {
        let new_state = apply_action(&self.nodes[parent_index].state, &action);
        self.push_child(parent_index, action, new_state)
    }

    /// Appends a child of `parent_index` that holds `state`, reached by
    /// `action`.
    fn push_child(&mut self, parent_index: usize, action: Action, state: State) -> (r: usize)
        requires
            old(self).wf(),
            parent_index < old(self)@.len(),
        ensures
            final(self).wf(),
            r == old(self)@.len(),
            child_appended(old(self)@, final(self)@, parent_index as int, action),
            final(self)@[r as int].state == state,
    {
        let ghost old_nodes = self.nodes@;
        let idx = self.nodes.len();
        assert(node_ok(old_nodes, parent_index as int));
        let new_cost = self.nodes[parent_index].cost + action.cost as i128;
        self.nodes[parent_index].children.push(idx);
        self.nodes.push(
            Node {
                state,
                parent: Some(parent_index),
                children: Vec::new(),
                action: Some(action),
                cost: new_cost,
            },
        );
        proof {
            let nodes = self.nodes@;
            let p = parent_index as int;
            assert forall|i: int| 0 <= i < nodes.len() implies #[trigger] node_ok(nodes, i) by {
                if i < idx {
                    assert(node_ok(old_nodes, i));
                    if i > 0 {
                        assert(nodes[parent_of(nodes, i)].cost == old_nodes[parent_of(
                            old_nodes,
                            i,
                        )].cost);
                    }
                    let ch = nodes[i].children@;
                    assert forall|j: int|
                        0 <= j < nodes.len() && #[trigger] nodes[j].parent == Some(
                            i as usize,
                        ) implies ch.contains(j as usize) by {
                        if j < idx {
                            assert(old_nodes[j].parent == Some(i as usize));
                            let och = old_nodes[i].children@;
                            if i == p {
                                let k = choose|k: int| 0 <= k < och.len() && och[k] == j as usize;
                                assert(ch[k] == j as usize);
                            }
                        } else {
                            assert(ch[ch.len() - 1] == j as usize);
                        }
                    }
                    if i == p {
                        let och = old_nodes[i].children@;
                        assert forall|k: int| 0 <= k < och.len() implies (och[k] as int) < idx by {
                            assert((#[trigger] och[k] as int) < old_nodes.len());
                        }
                    }
                } else {
                    assert(node_linked(nodes, i));
                    assert forall|j: int|
                        0 <= j < nodes.len() && #[trigger] nodes[j].parent == Some(
                            i as usize,
                        ) implies nodes[i].children@.contains(j as usize) by {
                        if j < idx {
                            assert(node_ok(old_nodes, j));
                        }
                    }
                }
            }
        }
        idx
    }

    /// The actions from the root to `node_index`, root side first; empty for
    /// the root and for an index outside the tree.
    pub fn trace_actions(&self, node_index: usize) -> (r: Vec<Action>)
        requires
            self.wf(),
        ensures
            action_views(r@) == action_views(path_actions(self@, node_index as int)),
    {
        let ghost target = action_views(path_actions(self@, node_index as int));
        if node_index >= self.nodes.len() {
            let r: Vec<Action> = Vec::new();
            assert(action_views(r@) =~= target);
            return r;
        }
        // Walk up to the root, collecting the actions target side first.
        let mut upward: Vec<Action> = Vec::new();
        let mut cur: usize = node_index;
        while cur != 0
            invariant
                self.wf(),
                cur < self@.len(),
                target =~= action_views(path_actions(self@, cur as int)) + action_views(
                    upward@,
                ).reverse(),
            decreases cur,
        {
            assert(node_ok(self@, cur as int));
            let node = &self.nodes[cur];
            let a = node.action.as_ref().unwrap().clone();
            let ghost before = upward@;
            upward.push(a);
            proof {
                let p = parent_of(self@, cur as int);
                assert(path_actions(self@, cur as int) == path_actions(self@, p).push(
                    self@[cur as int].action.unwrap(),
                ));
                assert(action_views(path_actions(self@, cur as int)) =~= action_views(
                    path_actions(self@, p),
                ).push(a@));
                assert(action_views(upward@) =~= action_views(before).push(a@));
                assert(action_views(upward@).reverse() =~= seq![a@] + action_views(
                    before,
                ).reverse());
            }
            cur = node.parent.unwrap();
        }
        assert(path_actions(self@, 0) == Seq::<Action>::empty());
        let mut r: Vec<Action> = Vec::new();
        while upward.len() > 0
            invariant
                target =~= action_views(r@) + action_views(upward@).reverse(),
            decreases upward.len(),
        {
            let ghost before = upward@;
            let a = upward.pop().unwrap();
            let ghost prev = r@;
            r.push(a);
            proof {
                assert(before == upward@.push(a));
                assert(action_views(before) =~= action_views(upward@).push(a@));
                assert(action_views(before).reverse() =~= seq![a@] + action_views(
                    upward@,
                ).reverse());
                assert(action_views(r@) =~= action_views(prev).push(a@));
            }
        }
        r
    }

    /// The subtree under `node_index` in depth-first order, children in the
    /// order they were created, each node with its indentation: `indent` for
    /// `node_index`, 4 more (up to `usize::MAX`) for each level below. Empty
    /// for an index outside the tree.
    pub fn subtree_lines(&self, node_index: usize, indent: usize) -> (r: Vec<(usize, usize)>)
        requires
            self.wf(),
        ensures
            r@ == preorder(self@, node_index as int, indent as int),
        decreases self@.len() - node_index, 1int,
    {
        let mut lines: Vec<(usize, usize)> = Vec::new();
        if node_index >= self.nodes.len() {
            return lines;
        }
        lines.push((node_index, indent));
        let child_indent = indent.saturating_add(4);
        let children = &self.nodes[node_index].children;
        let ghost n = node_index as int;
        assert(node_ok(self@, n));
        let mut i: usize = 0;
        while i < children.len()
            invariant
                self.wf(),
                n == node_index,
                n < self@.len(),
                children@ == self@[n].children@,
                0 <= i <= children@.len(),
                child_indent == deeper(indent as int),
                lines@ == seq![(node_index, indent)] + children_preorder(
                    self@,
                    n,
                    i as int,
                    child_indent as int,
                ),
            decreases children@.len() - i,
        {
            let c = children[i];
            assert(node_ok(self@, n));
            assert(node_ok(self@, c as int));
            let sub = self.subtree_lines(c, child_indent);
            let ghost prev = lines@;
            let mut j: usize = 0;
            while j < sub.len()
                invariant
                    0 <= j <= sub@.len(),
                    lines@ == prev + sub@.subrange(0, j as int),
                decreases sub@.len() - j,
            {
                lines.push(sub[j]);
                j = j + 1;
                assert(lines@ =~= prev + sub@.subrange(0, j as int));
            }
            assert(sub@.subrange(0, sub@.len() as int) =~= sub@);
            i = i + 1;
            assert(lines@ =~= seq![(node_index, indent)] + children_preorder(
                self@,
                n,
                i as int,
                child_indent as int,
            ));
        }
        lines
    }

    /// Expands node `node_index`: for each action that
    /// `get_possible_actions` gives for its state, in that order, appends a
    /// child holding what `apply_action` makes of the state. Returns the new
    /// indices; for an index outside the tree, nothing changes and the result
    /// is empty.
    pub fn expand_node<F, G>(&mut self, node_index: usize, get_possible_actions: F, apply_action: G) -> (r: Vec<usize>) where
        F: Fn(&State) -> Vec<Action>,
        G: Fn(&State, &Action) -> State,

        requires
            old(self).wf(),
            forall|s: &State| get_possible_actions.requires((s,)),
            forall|s: &State, a: &Action| apply_action.requires((s, a)),
        ensures
            final(self).wf(),
            node_index >= old(self)@.len() ==> r@.len() == 0 && final(self)@ == old(self)@,
            node_index < old(self)@.len() ==> exists|actions: Vec<Action>|
                {
                    &&& get_possible_actions.ensures(
                        (&old(self)@[node_index as int].state,),
                        actions,
                    )
                    &&& expanded(old(self)@, final(self)@, node_index as int, actions@, r@)
                    &&& forall|k: int|
                        0 <= k < actions@.len() ==> apply_action.ensures(
                            (&old(self)@[node_index as int].state, &actions@[k]),
                            #[trigger] final(self)@[old(self)@.len() + k].state,
                        )
                },
    {
        if node_index >= self.nodes.len() {
            return Vec::new();
        }
        let ghost base = self.nodes@;
        let ghost n = node_index as int;
        let actions = get_possible_actions(&self.nodes[node_index].state);
        let ghost acts = actions;
        assert(get_possible_actions.ensures((&base[n].state,), acts));
        let mut successors: Vec<usize> = Vec::new();
        for action in it: actions.into_iter()
            invariant
                self.wf(),
                n == node_index as int,
                n < base.len(),
                it.seq() == acts@,
                forall|s: &State, a: &Action| apply_action.requires((s, a)),
                self@.len() == base.len() + it.index(),
                successors@.len() == it.index(),
                forall|j: int| 0 <= j < base.len() && j != n ==> #[trigger] self@[j] == base[j],
                self@[n].state == base[n].state,
                self@[n].parent == base[n].parent,
                self@[n].action == base[n].action,
                self@[n].cost == base[n].cost,
                self@[n].children@ == base[n].children@ + successors@,
                forall|k: int|
                    0 <= k < it.index() ==> {
                        &&& #[trigger] successors@[k] == base.len() + k
                        &&& self@[base.len() + k].parent == Some(n as usize)
                        &&& self@[base.len() + k].action == Some(acts@[k])
                        &&& self@[base.len() + k].cost == base[n].cost + acts@[k].cost
                        &&& self@[base.len() + k].children@.len() == 0
                        &&& apply_action.ensures(
                            (&base[n].state, &acts@[k]),
                            self@[base.len() + k].state,
                        )
                    },
        {
            let ghost before = self.nodes@;
            let ghost prev = successors@;
            let new_state = apply_action(&self.nodes[node_index].state, &action);
            let idx = self.push_child(node_index, action, new_state);
            successors.push(idx);
            proof {
                assert(self@[n].children@ =~= base[n].children@ + successors@);
                assert forall|k: int| 0 <= k < it.index() + 1 implies {
                        &&& #[trigger] successors@[k] == base.len() + k
                        &&& self@[base.len() + k].parent == Some(n as usize)
                        &&& self@[base.len() + k].action == Some(acts@[k])
                        &&& self@[base.len() + k].cost == base[n].cost + acts@[k].cost
                        &&& self@[base.len() + k].children@.len() == 0
                        &&& apply_action.ensures(
                            (&base[n].state, &acts@[k]),
                            self@[base.len() + k].state,
                        )
                    } by {
                    if k < it.index() {
                        assert(prev[k] == successors@[k]);
                        assert(self@[base.len() + k] == before[base.len() + k]);
                    }
                }
            }
        }
        proof {
            assert(expanded(base, self@, n, acts@, successors@));
            assert(get_possible_actions.ensures((&base[n].state,), acts));
            assert forall|k: int| 0 <= k < acts@.len() implies apply_action.ensures(
                (&base[n].state, &acts@[k]),
                #[trigger] self@[base.len() + k].state,
            ) by {
                assert(successors@[k] == base.len() + k);
            }
        }
        successors
    }


}

/// The root of any tree has no parent, no action and cost 0.
pub proof fn lemma_root_shape(t: &SearchTree)
    requires
        t.wf(),
    ensures
        t@[0].parent is None,
        t@[0].action is None,
        t@[0].cost == 0,
{
    assert(node_ok(t@, 0));
}

/// The path to the root holds no action.
pub proof fn lemma_root_path_empty(t: &SearchTree)
    requires
        t.wf(),
    ensures
        path_actions(t@, 0).len() == 0,
{
}

/// Expanding a node by `k` actions creates exactly `k` nodes, at the end of
/// the arena, each with that node as parent and reached by the matching
/// action; the node's children grow by those indices in generation order,
/// so a node expanded for the first time has exactly them as children.
pub proof fn lemma_expand_creates_children(
    before: Seq<Node>,
    after: Seq<Node>,
    n: int,
    actions: Seq<Action>,
    new: Seq<usize>,
)
    requires
        well_formed(before),
        0 <= n < before.len(),
        expanded(before, after, n, actions, new),
    ensures
        after.len() == before.len() + actions.len(),
        new.len() == actions.len(),
        forall|k: int|
            0 <= k < new.len() ==> #[trigger] new[k] == before.len() + k && after[new[k] as int].parent
                == Some(n as usize) && after[new[k] as int].action == Some(actions[k]),
        forall|j: int|
            before.len() <= j < after.len() ==> #[trigger] after[j].parent == Some(n as usize),
        after[n].children@ == before[n].children@ + new,
        before[n].children@.len() == 0 ==> after[n].children@ == new,
{
    assert forall|j: int| before.len() <= j < after.len() implies #[trigger] after[j].parent == Some(
        n as usize,
    ) by {
        let k = j - before.len();
        assert(new[k] == before.len() + k);
    }
    if before[n].children@.len() == 0 {
        assert(before[n].children@ + new =~= new);
    }
}

/// Every node other than the root costs its parent's cost plus the cost of
/// the action that produced it, whatever the sign of that cost; so a node's
/// cost is the total cost of the actions on its path.
pub proof fn lemma_cost_accumulates(t: &SearchTree, i: int)
    requires
        t.wf(),
        0 <= i < t@.len(),
    ensures
        i > 0 ==> t@[i].cost == t@[parent_of(t@, i)].cost + t@[i].action.unwrap().cost,
        t@[i].cost == total_cost(path_actions(t@, i)),
    decreases i,
{
    assert(node_ok(t@, i));
    if i > 0 {
        let p = parent_of(t@, i);
        lemma_cost_accumulates(t, p);
        let path = path_actions(t@, i);
        assert(path.drop_last() == path_actions(t@, p));
    }
}

} // verus!
