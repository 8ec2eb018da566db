use crate::cost::{
    certify_no_negative_cycle, cost_bound, flow_cost, no_negative_cycle, total_cost,
};
use crate::flow::{
    certify_flow, conserves, in_flow, inbound, is_max_flow, lemma_out_bounded, out_flow, outbound,
    respects_capacity,
};
use crate::builder::{
    allocation_edges, build_ranked_network, duplicate_items, duplicate_recipients,
    unknown_reference, AllocationNetwork, Item, Recipient,
};
use crate::network::{capacity_sum, FlowError};
use crate::network::{Edge, Network};
use vstd::prelude::*;

verus! {

/// What `v` sends out minus what it takes in.
pub open spec fn excess(edges: Seq<Edge>, flow: Seq<u64>, v: int) -> int {
    outbound(edges, flow, v) - inbound(edges, flow, v)
}

pub(crate) proof fn lemma_update_sums(edges: Seq<Edge>, flow: Seq<u64>, e: int, x: u64, v: int, k: nat)
    requires
        0 <= e < flow.len(),
        k <= flow.len(),
    ensures
        out_flow(edges, flow.update(e, x), v, k) == out_flow(edges, flow, v, k) + if e < k
            && edges[e].from == v {
            x - flow[e]
        } else {
            0
        },
        in_flow(edges, flow.update(e, x), v, k) == in_flow(edges, flow, v, k) + if e < k
            && edges[e].to == v {
            x - flow[e]
        } else {
            0
        },
    decreases k,
{
    if k > 0 {
        lemma_update_sums(edges, flow, e, x, v, (k - 1) as nat);
    }
}

/// Pushes `d` units along `steps` from `s`, each step an edge taken forward or
/// backward, on a copy of `flows`. Gives up, handing back nothing, where a step
/// does not continue the walk, has less than `d` residual capacity, or the walk
/// does not end at `t`.
fn push_along(net: &Network, flows: &Vec<u64>, s: usize, t: usize, steps: &Vec<(usize, bool)>, d: u64) -> (r:
    Option<Vec<u64>>)
    requires
        net.wf(),
        respects_capacity(net.edges@, flows@),
    ensures
        r matches Some(f) ==> {
            &&& respects_capacity(net.edges@, f@)
            &&& forall|v: int|
                #![trigger excess(net.edges@, f@, v)]
                excess(net.edges@, f@, v) == excess(net.edges@, flows@, v) + (if v == s {
                    d as int
                } else {
                    0
                }) - (if v == t {
                    d as int
                } else {
                    0
                })
        },
{
    let ghost edges = net.edges@;
    let mut f: Vec<u64> = flows.clone();
    proof {
        assert(f@ =~= flows@);
    }
    let mut cur: usize = s;
    let mut i: usize = 0;
    while i < steps.len()
        invariant
            edges == net.edges@,
            respects_capacity(edges, flows@),
            respects_capacity(edges, f@),
            forall|v: int|
                #![trigger excess(edges, f@, v)]
                excess(edges, f@, v) == excess(edges, flows@, v) + (if v == s {
                    d as int
                } else {
                    0
                }) - (if v == cur {
                    d as int
                } else {
                    0
                }),
        decreases steps.len() - i,
    {
        let (e, forward) = steps[i];
        if e >= f.len() {
            return None;
        }
        let ed: Edge = net.edges[e];
        let ghost before = f@;
        if forward {
            if ed.from != cur || f[e] > ed.capacity || ed.capacity - f[e] < d {
                return None;
            }
            let x: u64 = f[e] + d;
            proof {
                assert forall|v: int| #![trigger excess(edges, before.update(e as int, x), v)]
                    excess(edges, before.update(e as int, x), v) == excess(edges, flows@, v) + (if v == s {
                    d as int
                } else {
                    0
                }) - (if v == ed.to as int {
                    d as int
                } else {
                    0
                }) by {
                    lemma_update_sums(edges, before, e as int, x, v, edges.len());
                    assert(excess(edges, before, v) == excess(edges, flows@, v) + (if v == s {
                        d as int
                    } else {
                        0
                    }) - (if v == cur {
                        d as int
                    } else {
                        0
                    }));
                }
            }
            f.set(e, x);
            cur = ed.to;
        } else {
            if ed.to != cur || f[e] < d {
                return None;
            }
            let x: u64 = f[e] - d;
            proof {
                assert forall|v: int| #![trigger excess(edges, before.update(e as int, x), v)]
                    excess(edges, before.update(e as int, x), v) == excess(edges, flows@, v) + (if v == s {
                    d as int
                } else {
                    0
                }) - (if v == ed.from as int {
                    d as int
                } else {
                    0
                }) by {
                    lemma_update_sums(edges, before, e as int, x, v, edges.len());
                    assert(excess(edges, before, v) == excess(edges, flows@, v) + (if v == s {
                        d as int
                    } else {
                        0
                    }) - (if v == cur {
                        d as int
                    } else {
                        0
                    }));
                }
            }
            f.set(e, x);
            cur = ed.from;
        }
        proof {
            assert forall|k: int| 0 <= k < f@.len() implies #[trigger] f@[k] <= edges[k].capacity by {
                if k != e as int {
                    assert(f@[k] == before[k]);
                }
            }
        }
        i = i + 1;
    }
    if cur != t {
        return None;
    }
    Some(f)
}

/// Cheapest residual walk from `s` to `t` by Bellman-Ford over edge costs, as
/// steps `(edge, forward)`; `None` where `t` is out of reach or the
/// predecessors do not lead back to `s`.
fn cheapest_steps(net: &Network, flows: &Vec<u64>, s: usize, t: usize) -> (r: Option<Vec<(usize, bool)>>)
    requires
        net.wf(),
        s < net.num_nodes,
        t < net.num_nodes,
        flows@.len() == net.edges@.len(),
        net.num_nodes <= 0x8000_0000_0000_0000,
{
    let n = net.num_nodes;
    let ghost edges = net.edges@;
    let mut dist: Vec<i128> = Vec::new();
    let mut reached: Vec<bool> = Vec::new();
    let mut pred: Vec<(usize, bool)> = Vec::new();
    let mut i: usize = 0;
    while i < n
        invariant
            i <= n,
            dist@.len() == i,
            reached@.len() == i,
            pred@.len() == i,
            forall|v: int| 0 <= v < i ==> dist@[v] == 0,
        decreases n - i,
    {
        dist.push(0);
        reached.push(false);
        pred.push((0, true));
        i = i + 1;
    }
    reached.set(s, true);
    let mut round: usize = 0;
    while round < n
        invariant
            net.wf(),
            edges == net.edges@,
            n == net.num_nodes,
            n <= 0x8000_0000_0000_0000,
            flows@.len() == edges.len(),
            round <= n,
            dist@.len() == n,
            reached@.len() == n,
            pred@.len() == n,
            forall|v: int|
                0 <= v < n ==> -(round as int) * cost_bound() <= #[trigger] dist@[v] <= (round as int)
                    * cost_bound(),
        decreases n - round,
    {
        let mut next: Vec<i128> = dist.clone();
        let mut next_reached: Vec<bool> = reached.clone();
        proof {
            assert(next@ =~= dist@);
        }
        let mut j: usize = 0;
        while j < net.edges.len()
            invariant
                net.wf(),
                edges == net.edges@,
                n == net.num_nodes,
                n <= 0x8000_0000_0000_0000,
                flows@.len() == edges.len(),
                round < n,
                j <= edges.len(),
                dist@.len() == n,
                reached@.len() == n,
                next@.len() == n,
                next_reached@.len() == n,
                pred@.len() == n,
                forall|v: int|
                    0 <= v < n ==> -(round as int) * cost_bound() <= #[trigger] dist@[v] <= (round as int)
                        * cost_bound(),
                forall|v: int|
                    0 <= v < n ==> -(round + 1) * cost_bound() <= #[trigger] next@[v] <= (round + 1)
                        * cost_bound(),
            decreases edges.len() - j,
        {
            let ed: Edge = net.edges[j];
            assert(edges[j as int].from < n && edges[j as int].to < n);
            proof {
                assert((round + 1) * cost_bound() == (round as int) * cost_bound() + cost_bound());
                assert((round + 1) * cost_bound() <= 0x8000_0000_0000_0000 * cost_bound()) by (nonlinear_arith)
                    requires
                        round + 1 <= 0x8000_0000_0000_0000,
                ;
            }
            if flows[j] < ed.capacity && reached[ed.from] {
                let cand: i128 = dist[ed.from] + ed.cost as i128;
                if !next_reached[ed.to] || cand < next[ed.to] {
                    next.set(ed.to, cand);
                    next_reached.set(ed.to, true);
                    pred.set(ed.to, (j, true));
                }
            }
            if flows[j] > 0 && reached[ed.to] {
                let cand: i128 = dist[ed.to] - ed.cost as i128;
                if !next_reached[ed.from] || cand < next[ed.from] {
                    next.set(ed.from, cand);
                    next_reached.set(ed.from, true);
                    pred.set(ed.from, (j, false));
                }
            }
            j = j + 1;
        }
        dist = next;
        reached = next_reached;
        round = round + 1;
    }
    if !reached[t] {
        return None;
    }
    let mut back: Vec<(usize, bool)> = Vec::new();
    let mut cur: usize = t;
    let mut k: usize = 0;
    while cur != s
        invariant
            net.wf(),
            edges == net.edges@,
            n == net.num_nodes,
            cur < n,
            pred@.len() == n,
            k <= n,
        decreases n - k,
    {
        if k == n {
            return None;
        }
        let (e, forward) = pred[cur];
        if e >= net.edges.len() {
            return None;
        }
        assert(edges[e as int].from < n && edges[e as int].to < n);
        back.push((e, forward));
        cur = if forward {
            net.edges[e].from
        } else {
            net.edges[e].to
        };
        k = k + 1;
    }
    let mut steps: Vec<(usize, bool)> = Vec::new();
    let mut m: usize = back.len();
    while m > 0
        invariant
            m <= back@.len(),
        decreases m,
    {
        m = m - 1;
        steps.push(back[m]);
    }
    Some(steps)
}

/// The least residual capacity over `steps`; zero where a step names no edge.
fn bottleneck(net: &Network, flows: &Vec<u64>, steps: &Vec<(usize, bool)>) -> (d: u64)
    requires
        respects_capacity(net.edges@, flows@),
{
    let mut d: u64 = u64::MAX;
    let mut i: usize = 0;
    while i < steps.len()
        invariant
            respects_capacity(net.edges@, flows@),
        decreases steps.len() - i,
    {
        let (e, forward) = steps[i];
        if e >= flows.len() {
            return 0;
        }
        let room: u64 = if forward {
            net.edges[e].capacity - flows[e]
        } else {
            flows[e]
        };
        if room < d {
            d = room;
        }
        i = i + 1;
    }
    d
}

pub(crate) proof fn lemma_zero_sums(edges: Seq<Edge>, flow: Seq<u64>, v: int, k: nat)
    requires
        k <= flow.len(),
        forall|e: int| 0 <= e < flow.len() ==> flow[e] == 0,
    ensures
        out_flow(edges, flow, v, k) == 0,
        in_flow(edges, flow, v, k) == 0,
    decreases k,
{
    if k > 0 {
        lemma_zero_sums(edges, flow, v, (k - 1) as nat);
    }
}

/// A maximum flow of least total cost, its value and its cost.
pub struct MinCostFlow {
    pub value: u64,
    pub cost: i128,
    pub flows: Vec<u64>,
}

/// Computes a minimum-cost maximum flow by successive cheapest augmenting
/// walks, and certifies both its maximality and the absence of negative-cost
/// residual cycles before handing it out.
pub fn min_cost_max_flow(net: &Network, source: usize, sink: usize) -> (r: Result<MinCostFlow, FlowError>)
    requires
        net.wf(),
        net.total_capacity() <= u64::MAX,
    ensures
        (source >= net.num_nodes || sink >= net.num_nodes) ==> r == Err::<MinCostFlow, FlowError>(
            FlowError::InvalidNode,
        ),
        (source < net.num_nodes && sink < net.num_nodes && source == sink) ==> r == Err::<
            MinCostFlow,
            FlowError,
        >(FlowError::DegenerateNetwork),
        r matches Err(e) ==> (e == FlowError::ResourceExhausted ==> net.num_nodes
            > 0x8000_0000_0000_0000),
        r matches Ok(m) ==> {
            &&& source < net.num_nodes && sink < net.num_nodes && source != sink
            &&& is_max_flow(net.edges@, net.num_nodes as nat, m.flows@, source as int, sink as int)
            &&& m.value == excess(net.edges@, m.flows@, source as int)
            &&& m.value == -excess(net.edges@, m.flows@, sink as int)
            &&& m.cost == flow_cost(net.edges@, m.flows@)
            &&& no_negative_cycle(net.edges@, m.flows@)
        },
{
    let n = net.num_nodes;
    let ghost edges = net.edges@;
    if source >= n || sink >= n {
        return Err(FlowError::InvalidNode);
    }
    if source == sink {
        return Err(FlowError::DegenerateNetwork);
    }
    if n as u128 > 0x8000_0000_0000_0000u128 {
        return Err(FlowError::ResourceExhausted);
    }
    let mut flows: Vec<u64> = Vec::new();
    let mut j: usize = 0;
    while j < net.edges.len()
        invariant
            j <= net.edges@.len(),
            flows@.len() == j,
            forall|e: int| 0 <= e < j ==> flows@[e] == 0,
        decreases net.edges.len() - j,
    {
        flows.push(0);
        j = j + 1;
    }
    proof {
        assert forall|v: int| #![trigger excess(edges, flows@, v)] excess(edges, flows@, v) == 0 by {
            lemma_zero_sums(edges, flows@, v, edges.len());
        }
    }
    let mut value: u64 = 0;
    let mut done: bool = false;
    while !done
        invariant
            net.wf(),
            edges == net.edges@,
            n == net.num_nodes,
            n <= 0x8000_0000_0000_0000,
            net.total_capacity() <= u64::MAX,
            source < n && sink < n && source != sink,
            respects_capacity(edges, flows@),
            forall|v: int|
                #![trigger excess(edges, flows@, v)]
                v != source && v != sink ==> excess(edges, flows@, v) == 0,
            excess(edges, flows@, source as int) == value,
        decreases net.total_capacity() - value + if done {
            0int
        } else {
            1int
        },
    {
        proof {
            lemma_out_bounded(edges, flows@, source as int, edges.len());
        }
        match cheapest_steps(net, &flows, source, sink) {
            None => {
                done = true;
            },
            Some(steps) => {
                let d = bottleneck(net, &flows, &steps);
                if d == 0 {
                    done = true;
                } else {
                    match push_along(net, &flows, source, sink, &steps, d) {
                        None => {
                            done = true;
                        },
                        Some(f) => {
                            proof {
                                assert(excess(edges, f@, source as int) == value + d);
                                lemma_out_bounded(edges, f@, source as int, edges.len());
                                assert forall|v: int| #![trigger excess(edges, f@, v)] v != source && v
                                    != sink implies excess(edges, f@, v) == 0 by {
                                    assert(excess(edges, flows@, v) == 0);
                                }
                            }
                            flows = f;
                            value = value + d;
                        },
                    }
                }
            },
        }
    }
    proof {
        assert forall|v: int|
            0 <= v < n && v != source && v != sink implies #[trigger] outbound(edges, flows@, v)
                == inbound(edges, flows@, v) by {
            assert(excess(edges, flows@, v) == 0);
        }
        assert(conserves(edges, flows@, n as nat, source as int, sink as int));
    }
    let sol = match certify_flow(net, source, sink, flows) {
        Ok(sol) => sol,
        Err(_) => {
            return Err(FlowError::InvalidFlow);
        },
    };
    if !certify_no_negative_cycle(net, &sol.flows) {
        return Err(FlowError::InvalidFlow);
    }
    let cost = total_cost(net, &sol.flows);
    Ok(MinCostFlow { value: sol.value, cost, flows: sol.flows })
}

/// An allocation network with preference costs and a cheapest maximum flow.
pub struct PreferenceAllocation {
    pub network: AllocationNetwork,
    pub solution: MinCostFlow,
}

/// Allocates as many units as possible, and among those allocations one that
/// gives recipients their earliest wishes: each unit costs the position of its
/// item in the recipient's wishlist, and the total is least.
pub fn allocate_by_preference(items: &Vec<Item>, recipients: &Vec<Recipient>) -> (r: Result<
    PreferenceAllocation,
    FlowError,
>)
    requires
        items@.len() + recipients@.len() + 2 <= usize::MAX,
    ensures
        (duplicate_items(items@) || duplicate_recipients(recipients@)) ==> r matches Err(
            FlowError::DuplicateName,
        ),
        (!duplicate_items(items@) && !duplicate_recipients(recipients@) && unknown_reference(
            items@,
            recipients@,
        )) ==> r matches Err(FlowError::UnknownReference),
        r matches Err(e) ==> (e == FlowError::ResourceExhausted ==> ({
            let edges = allocation_edges(items@, recipients@, true);
            capacity_sum(edges, edges.len()) > u64::MAX || items@.len() + recipients@.len() + 2
                > 0x8000_0000_0000_0000
        })),
        r matches Ok(a) ==> {
            &&& a.network.network.num_nodes == items@.len() + recipients@.len() + 2
            &&& a.network.network.edges@ == allocation_edges(items@, recipients@, true)
            &&& a.network.network.wf()
            &&& a.network.source == 0 && a.network.sink == 1
            &&& is_max_flow(
                a.network.network.edges@,
                a.network.network.num_nodes as nat,
                a.solution.flows@,
                0,
                1,
            )
            &&& a.solution.value == excess(a.network.network.edges@, a.solution.flows@, 0)
            &&& a.solution.cost == flow_cost(a.network.network.edges@, a.solution.flows@)
            &&& no_negative_cycle(a.network.network.edges@, a.solution.flows@)
        },
{
    let built = build_ranked_network(items, recipients)?;
    if built.network.capacity_total().is_none() {
        return Err(FlowError::ResourceExhausted);
    }
    let solution = min_cost_max_flow(&built.network, built.source, built.sink)?;
    Ok(PreferenceAllocation { network: built, solution })
}

} // verus!
