use vstd::prelude::*;

verus! {

/// How a frontier orders its entries.
#[derive(Debug, Clone, Copy, PartialEq, Eq, Structural)]
pub enum Strategy {
    /// First in, first out; costs and estimates play no part.
    Uninformed,
    /// Smallest path cost plus estimate first; earlier insertion wins a tie.
    CostInformed,
    /// Smallest estimate first, whatever the cost; earlier insertion wins a
    /// tie.
    HeuristicOnly,
}

/// The priority an entry gets under `strategy`: smaller leaves first.
pub open spec fn priority_of(strategy: Strategy, cost: int, estimate: int) -> int {
    match strategy {
        Strategy::Uninformed => 0,
        Strategy::CostInformed => cost + estimate,
        Strategy::HeuristicOnly => estimate,
    }
}

/// A node index waiting in a frontier, with its priority.
#[derive(Debug, Clone, Copy, PartialEq, Eq, Structural)]
pub struct FrontierEntry {
    pub index: usize,
    pub priority: i128,
}

/// `m` is the first position of a smallest priority in `entries`.
pub open spec fn first_min(entries: Seq<FrontierEntry>, m: int) -> bool {
    &&& 0 <= m < entries.len()
    &&& forall|j: int| 0 <= j < entries.len() ==> entries[m].priority <= #[trigger] entries[j].priority
    &&& forall|j: int| 0 <= j < m ==> entries[m].priority < #[trigger] entries[j].priority
}

/// `r` is what a pop returns on `before`, and `after` what stays: nothing
/// from an empty frontier, else the first entry of smallest priority, the
/// others keeping their order.
pub open spec fn popped_from(
    before: Seq<FrontierEntry>,
    after: Seq<FrontierEntry>,
    r: Option<usize>,
) -> bool {
    if before.len() == 0 {
        &&& r is None
        &&& after == before
    } else {
        exists|m: int|
            {
                &&& first_min(before, m)
                &&& r == Some(before[m].index)
                &&& after == before.remove(m)
            }
    }
}

/// The open list of a search: node indices waiting to be expanded, kept in
/// the order they were inserted.
pub struct Frontier {
    strategy: Strategy,
    entries: Vec<FrontierEntry>,
}

impl View for Frontier {
    type V = Seq<FrontierEntry>;

    closed spec fn view(&self) -> Seq<FrontierEntry> {
        self.entries@
    }
}

impl Frontier {
    /// The strategy that orders this frontier.
    pub closed spec fn kind(&self) -> Strategy {
        self.strategy
    }

    /// Under the uninformed strategy every priority is 0.
    pub open spec fn wf(&self) -> bool {
        self.kind() == Strategy::Uninformed ==> forall|j: int|
            0 <= j < self@.len() ==> (#[trigger] self@[j]).priority == 0
    }

    /// An empty frontier ordered by `strategy`.
    pub fn new(strategy: Strategy) -> (r: Frontier)
        ensures
            r.wf(),
            r.kind() == strategy,
            r@.len() == 0,
    {
        Frontier { strategy, entries: Vec::new() }
    }

    pub fn strategy(&self) -> (r: Strategy)
        ensures
            r == self.kind(),
    {
        self.strategy
    }

    pub fn len(&self) -> (r: usize)
        ensures
            r == self@.len(),
    {
        self.entries.len()
    }

    /// Adds `node_index`, reached at `node_cost`, with the estimate
    /// `heuristic` of its remaining cost.
    pub fn insert(&mut self, node_index: usize, node_cost: i128, heuristic: u64)
        requires
            old(self).wf(),
            node_cost + heuristic <= i128::MAX,
        ensures
            final(self).wf(),
            final(self).kind() == old(self).kind(),
            final(self)@ == old(self)@.push(
                FrontierEntry {
                    index: node_index,
                    priority: priority_of(old(self).kind(), node_cost as int, heuristic as int)
                        as i128,
                },
            ),
    {
        let priority: i128 = match self.strategy {
            Strategy::Uninformed => 0,
            Strategy::CostInformed => node_cost + heuristic as i128,
            Strategy::HeuristicOnly => heuristic as i128,
        };
        let ghost before = self.entries@;
        self.entries.push(FrontierEntry { index: node_index, priority });
        assert forall|j: int| 0 <= j < self@.len() && self.kind() == Strategy::Uninformed implies (
        #[trigger] self@[j]).priority == 0 by {
            if j < before.len() {
                assert(old(self)@[j] == self@[j]);
            }
        }
    }

    /// Removes and returns the entry that the strategy puts first, or `None`
    /// when the frontier is empty.
    pub fn pop(&mut self) -> (r: Option<usize>)
        requires
            old(self).wf(),
        ensures
            final(self).wf(),
            final(self).kind() == old(self).kind(),
            popped_from(old(self)@, final(self)@, r),
    {
        if self.entries.len() == 0 {
            return None;
        }
        let mut best: usize = 0;
        let mut i: usize = 1;
        while i < self.entries.len()
            invariant
                1 <= i <= self.entries@.len(),
                best < i,
                forall|j: int|
                    0 <= j < i ==> self.entries@[best as int].priority
                        <= #[trigger] self.entries@[j].priority,
                forall|j: int|
                    0 <= j < best ==> self.entries@[best as int].priority
                        < #[trigger] self.entries@[j].priority,
            decreases self.entries@.len() - i,
        {
            if self.entries[i].priority < self.entries[best].priority {
                best = i;
            }
            i = i + 1;
        }
        let ghost before = self.entries@;
        let e = self.entries.remove(best);
        assert(first_min(before, best as int));
        assert forall|j: int| 0 <= j < self@.len() && self.kind() == Strategy::Uninformed implies (
        #[trigger] self@[j]).priority == 0 by {
            if j < best {
                assert(old(self)@[j] == self@[j]);
            } else {
                assert(old(self)@[j + 1] == self@[j]);
            }
        }
        Some(e.index)
    }
}

/// Under the uninformed strategy the frontier is a queue: whatever costs and
/// estimates the entries were inserted with, a pop hands back the entry
/// inserted first and keeps the rest in order.
pub proof fn lemma_uninformed_pops_in_insertion_order(
    f: Frontier,
    after: Seq<FrontierEntry>,
    r: Option<usize>,
)
    requires
        f.wf(),
        f.kind() == Strategy::Uninformed,
        popped_from(f@, after, r),
    ensures
        f@.len() == 0 ==> r is None,
        f@.len() > 0 ==> r == Some(f@[0].index) && after == f@.drop_first(),
{
    if f@.len() > 0 {
        let m = choose|m: int|
            {
                &&& first_min(f@, m)
                &&& r == Some(f@[m].index)
                &&& after == f@.remove(m)
            };
        if m > 0 {
            assert(f@[0].priority == 0);
            assert(f@[m].priority == 0);
        }
        assert(f@.remove(0) =~= f@.drop_first());
    }
}

} // verus!
