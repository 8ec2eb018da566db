use vstd::prelude::*;

verus! {

/// Errors reported by network construction and solving.
#[derive(Debug, Clone, Copy, PartialEq, Eq, Structural)]
pub enum FlowError {
    /// An edge or a terminal refers to a node that was never allocated.
    InvalidNode,
    /// Two items, or two recipients, share a name.
    DuplicateName,
    /// A wishlist names an item that was not declared.
    UnknownReference,
    /// Source and sink are the same node.
    DegenerateNetwork,
    /// The network is larger than the solver can index.
    ResourceExhausted,
    /// The proposed flow could not be certified as a maximum flow.
    InvalidFlow,
}

/// A directed edge with an upper bound on its flow and a per-unit cost.
#[derive(Debug, Clone, Copy, PartialEq, Eq, Structural)]
pub struct Edge {
    pub from: usize,
    pub to: usize,
    pub capacity: u64,
    pub cost: i64,
}

/// A directed multigraph over the nodes `0 .. num_nodes`; edge identifiers are
/// positions in `edges`, in insertion order.
pub struct Network {
    pub num_nodes: usize,
    pub edges: Vec<Edge>,
}

/// Every edge of `edges` joins two nodes below `n`.
pub open spec fn edges_within(edges: Seq<Edge>, n: nat) -> bool {
    forall|e: int| 0 <= e < edges.len() ==> (#[trigger] edges[e]).from < n && edges[e].to < n
}

/// Sum of the capacities of the first `k` edges.
pub open spec fn capacity_sum(edges: Seq<Edge>, k: nat) -> int
    decreases k,
{
    if k == 0 || k > edges.len() {
        0
    } else {
        capacity_sum(edges, (k - 1) as nat) + edges[k - 1].capacity
    }
}

/// Capacity sums grow with the prefix.
pub proof fn lemma_capacity_sum_mono(edges: Seq<Edge>, j: nat, k: nat)
    requires
        j <= k <= edges.len(),
    ensures
        capacity_sum(edges, j) <= capacity_sum(edges, k),
    decreases k,
{
    if j < k {
        lemma_capacity_sum_mono(edges, j, (k - 1) as nat);
    }
}

impl Network {
    /// Every edge joins allocated nodes.
    pub open spec fn wf(&self) -> bool {
        edges_within(self.edges@, self.num_nodes as nat)
    }

    /// Sum of all capacities.
    pub open spec fn total_capacity(&self) -> int {
        capacity_sum(self.edges@, self.edges@.len())
    }

    /// An empty network.
    pub fn new() -> (r: Network)
        ensures
            r.num_nodes == 0,
            r.edges@.len() == 0,
            r.wf(),
    {
        Network { num_nodes: 0, edges: Vec::new() }
    }

    /// Allocates a fresh node and returns its identifier.
    pub fn add_node(&mut self) -> (r: usize)
        requires
            old(self).num_nodes < usize::MAX,
        ensures
            r == old(self).num_nodes,
            final(self).num_nodes == old(self).num_nodes + 1,
            final(self).edges@ == old(self).edges@,
            old(self).wf() ==> final(self).wf(),
    {
        let r = self.num_nodes;
        self.num_nodes = self.num_nodes + 1;
        r
    }

    /// Appends a directed edge; parallel edges are kept apart.
    pub fn add_edge(&mut self, from: usize, to: usize, capacity: u64, cost: i64) -> (r: Result<
        usize,
        FlowError,
    >)
        ensures
            final(self).num_nodes == old(self).num_nodes,
            (from >= old(self).num_nodes || to >= old(self).num_nodes) ==> r == Err::<
                usize,
                FlowError,
            >(FlowError::InvalidNode) && final(self).edges@ == old(self).edges@,
            (from < old(self).num_nodes && to < old(self).num_nodes) ==> r == Ok::<
                usize,
                FlowError,
            >(old(self).edges@.len() as usize) && final(self).edges@ == old(self).edges@.push(
                Edge { from, to, capacity, cost },
            ),
            old(self).wf() ==> final(self).wf(),
    {
        if from >= self.num_nodes || to >= self.num_nodes {
            return Err(FlowError::InvalidNode);
        }
        let id = self.edges.len();
        self.edges.push(Edge { from, to, capacity, cost });
        proof {
            if old(self).wf() {
            assert forall|e: int| 0 <= e < self.edges@.len() implies (#[trigger] self.edges@[e]).from
                < self.num_nodes && self.edges@[e].to < self.num_nodes by {
                if e < old(self).edges@.len() {
                    assert(self.edges@[e] == old(self).edges@[e]);
                }
            }
            }
        }
        Ok(id)
    }

    /// The edges in insertion order.
    pub fn edges(&self) -> (r: &Vec<Edge>)
        ensures
            r@ == self.edges@,
    {
        &self.edges
    }

    /// The sum of all capacities, where it fits in a `u64`.
    pub fn capacity_total(&self) -> (r: Option<u64>)
        ensures
            r is Some <==> self.total_capacity() <= u64::MAX,
            r matches Some(c) ==> c == self.total_capacity(),
    {
        let mut acc: u64 = 0;
        let mut j: usize = 0;
        while j < self.edges.len()
            invariant
                j <= self.edges@.len(),
                acc == capacity_sum(self.edges@, j as nat),
            decreases self.edges.len() - j,
        {
            let c = self.edges[j].capacity;
            if acc > u64::MAX - c {
                proof {
                    lemma_capacity_sum_mono(self.edges@, (j + 1) as nat, self.edges@.len());
                }
                return None;
            }
            acc = acc + c;
            j = j + 1;
        }
        Some(acc)
    }

    /// Number of allocated nodes.
    pub fn node_count(&self) -> (r: usize)
        ensures
            r == self.num_nodes,
    {
        self.num_nodes
    }
}

} // verus!
