use crate::flow::{certify_flow, inbound, is_max_flow, outbound, FlowSolution};
use crate::builder::{
    allocation_edges, build_network, duplicate_items, duplicate_recipients, unknown_reference,
    AllocationNetwork, Item, Recipient,
};
use crate::network::{capacity_sum, Edge, FlowError, Network};
use rs_graph::maxflow::edmondskarp;
use rs_graph::traits::IndexGraph;
use rs_graph::vecgraph::VecGraphBuilder;
use rs_graph::Builder;
use vstd::prelude::*;

verus! {

/// Largest node or edge count that the augmenting-path solver indexes.
pub const INDEX_LIMIT: usize = 0x4000_0000;

/// The flow that Edmonds-Karp computes on the edges, node count and terminals.
pub uninterp spec fn edmonds_karp_flow(edges: Seq<Edge>, n: nat, s: int, t: int) -> Seq<u64>;

/// Relies on rs_graph::maxflow::edmondskarp: it hands back one flow amount per
/// edge, listed in the order in which the edges were added to the graph. The
/// result depends on its arguments alone, and is a maximum flow: the search
/// stops only when breadth-first search no longer reaches the sink over arcs of
/// positive residual capacity, each edge's flow and residual add up to its
/// capacity, and every augmentation runs along a path from source to sink.
#[verifier::external_body]
fn edmonds_karp_flows(net: &Network, source: usize, sink: usize) -> (r: Vec<u64>)
    requires
        net.wf(),
        source < net.num_nodes,
        sink < net.num_nodes,
        source != sink,
        net.num_nodes < INDEX_LIMIT,
        net.edges@.len() < INDEX_LIMIT,
        net.total_capacity() <= u64::MAX,
    ensures
        r@ == edmonds_karp_flow(net.edges@, net.num_nodes as nat, source as int, sink as int),
        is_max_flow(net.edges@, net.num_nodes as nat, r@, source as int, sink as int),
{
    let mut b = VecGraphBuilder::<usize>::new();
    let nodes = b.add_nodes(net.num_nodes);
    for e in net.edges.iter() {
        b.add_edge(nodes[e.from], nodes[e.to]);
    }
    let g = b.into_graph();
    let (_, flow, _) = edmondskarp(&g, nodes[source], nodes[sink], |e| net.edges[g.edge_id(e)].capacity);
    flow.into_iter().map(|(_, f)| f).collect()
}

/// Computes a maximum flow from `source` to `sink` by shortest augmenting
/// paths, and certifies it before handing it out.
pub fn max_flow(net: &Network, source: usize, sink: usize) -> (r: Result<FlowSolution, FlowError>)
    requires
        net.wf(),
        net.total_capacity() <= u64::MAX,
    ensures
        (source >= net.num_nodes || sink >= net.num_nodes) ==> r == Err::<FlowSolution, FlowError>(
            FlowError::InvalidNode,
        ),
        (source < net.num_nodes && sink < net.num_nodes && source == sink) ==> r == Err::<
            FlowSolution,
            FlowError,
        >(FlowError::DegenerateNetwork),
        (source < net.num_nodes && sink < net.num_nodes && source != sink && (net.num_nodes
            >= INDEX_LIMIT || net.edges@.len() >= INDEX_LIMIT)) ==> r == Err::<
            FlowSolution,
            FlowError,
        >(FlowError::ResourceExhausted),
        (source < net.num_nodes && sink < net.num_nodes && source != sink && net.num_nodes
            < INDEX_LIMIT && net.edges@.len() < INDEX_LIMIT) ==> r is Ok,
        r matches Ok(sol) ==> {
            &&& source < net.num_nodes && sink < net.num_nodes && source != sink
            &&& sol.flows@ == edmonds_karp_flow(
                net.edges@,
                net.num_nodes as nat,
                source as int,
                sink as int,
            )
            &&& is_max_flow(net.edges@, net.num_nodes as nat, sol.flows@, source as int, sink as int)
            &&& sol.value == outbound(net.edges@, sol.flows@, source as int) - inbound(
                net.edges@,
                sol.flows@,
                source as int,
            )
            &&& sol.value == inbound(net.edges@, sol.flows@, sink as int) - outbound(
                net.edges@,
                sol.flows@,
                sink as int,
            )
        },
{
    if source >= net.num_nodes || sink >= net.num_nodes {
        return Err(FlowError::InvalidNode);
    }
    if source == sink {
        return Err(FlowError::DegenerateNetwork);
    }
    if net.num_nodes >= INDEX_LIMIT || net.edges.len() >= INDEX_LIMIT {
        return Err(FlowError::ResourceExhausted);
    }
    let flows = edmonds_karp_flows(net, source, sink);
    certify_flow(net, source, sink, flows)
}

/// Each edge with its routed amount and its capacity: `(edge, flow, capacity)`.
pub fn flow_table(net: &Network, sol: &FlowSolution) -> (r: Vec<(usize, u64, u64)>)
    requires
        sol.flows@.len() == net.edges@.len(),
    ensures
        r@.len() == net.edges@.len(),
        forall|e: int|
            0 <= e < r@.len() ==> #[trigger] r@[e] == (e as usize, sol.flows@[e], net.edges@[e].capacity),
{
    let mut r: Vec<(usize, u64, u64)> = Vec::new();
    let mut j: usize = 0;
    while j < net.edges.len()
        invariant
            j <= net.edges@.len(),
            sol.flows@.len() == net.edges@.len(),
            r@.len() == j,
            forall|e: int|
                0 <= e < j ==> #[trigger] r@[e] == (e as usize, sol.flows@[e], net.edges@[e].capacity),
        decreases net.edges.len() - j,
    {
        let ed: Edge = net.edges[j];
        r.push((j, sol.flows[j], ed.capacity));
        j = j + 1;
    }
    r
}

/// The allocation network for the items and recipients fits the solver: its
/// capacities add up within a `u64`, and its nodes and edges can be indexed.
pub open spec fn within_limits(items: Seq<Item>, recipients: Seq<Recipient>) -> bool {
    let edges = allocation_edges(items, recipients, false);
    &&& capacity_sum(edges, edges.len()) <= u64::MAX
    &&& items.len() + recipients.len() + 2 < INDEX_LIMIT
    &&& edges.len() < INDEX_LIMIT
}

/// An allocation network together with a maximum flow through it.
pub struct Allocation {
    pub network: AllocationNetwork,
    pub solution: FlowSolution,
}

/// Builds the allocation network for the items and recipients and solves it
/// for a maximum flow.
pub fn allocate(items: &Vec<Item>, recipients: &Vec<Recipient>) -> (r: Result<Allocation, FlowError>)
    requires
        items@.len() + recipients@.len() + 2 <= usize::MAX,
    ensures
        (duplicate_items(items@) || duplicate_recipients(recipients@)) ==> r matches Err(
            FlowError::DuplicateName,
        ),
        (!duplicate_items(items@) && !duplicate_recipients(recipients@) && unknown_reference(
            items@,
            recipients@,
        )) ==> r matches Err(FlowError::UnknownReference),
        (!duplicate_items(items@) && !duplicate_recipients(recipients@) && !unknown_reference(
            items@,
            recipients@,
        ) && within_limits(items@, recipients@)) ==> r is Ok,
        r matches Err(e) ==> (e == FlowError::ResourceExhausted ==> !duplicate_items(items@)
            && !duplicate_recipients(recipients@) && !unknown_reference(items@, recipients@)
            && !within_limits(items@, recipients@)),
        r matches Err(e) ==> e != FlowError::InvalidFlow && e != FlowError::InvalidNode && e
            != FlowError::DegenerateNetwork,
        r matches Ok(a) ==> {
            &&& a.network.network.num_nodes == items@.len() + recipients@.len() + 2
            &&& a.network.network.edges@ == allocation_edges(items@, recipients@, false)
            &&& a.network.network.wf()
            &&& a.network.source == 0 && a.network.sink == 1
            &&& a.solution.flows@ == edmonds_karp_flow(
                a.network.network.edges@,
                a.network.network.num_nodes as nat,
                0,
                1,
            )
            &&& is_max_flow(
                a.network.network.edges@,
                a.network.network.num_nodes as nat,
                a.solution.flows@,
                0,
                1,
            )
            &&& a.solution.value == outbound(a.network.network.edges@, a.solution.flows@, 0)
                - inbound(a.network.network.edges@, a.solution.flows@, 0)
            &&& a.solution.value == inbound(a.network.network.edges@, a.solution.flows@, 1)
                - outbound(a.network.network.edges@, a.solution.flows@, 1)
        },
{
    let built = build_network(items, recipients)?;
    if built.network.capacity_total().is_none() || built.network.num_nodes >= INDEX_LIMIT
        || built.network.edges.len() >= INDEX_LIMIT {
        return Err(FlowError::ResourceExhausted);
    }
    let solution = max_flow(&built.network, built.source, built.sink)?;
    Ok(Allocation { network: built, solution })
}

} // verus!
