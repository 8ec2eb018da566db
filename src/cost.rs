use crate::flow::respects_capacity;
use crate::network::{capacity_sum, edges_within, lemma_capacity_sum_mono, Edge, Network};
use vstd::prelude::*;

verus! {

/// Sum of `flow * cost` over the first `k` edges.
pub open spec fn cost_sum(edges: Seq<Edge>, flow: Seq<u64>, k: nat) -> int
    decreases k,
{
    if k == 0 {
        0
    } else {
        cost_sum(edges, flow, (k - 1) as nat) + flow[k - 1] * edges[k - 1].cost
    }
}

/// Total cost of a flow.
pub open spec fn flow_cost(edges: Seq<Edge>, flow: Seq<u64>) -> int {
    cost_sum(edges, flow, edges.len())
}

/// Largest magnitude of an `i64` cost.
pub open spec fn cost_bound() -> int {
    0x8000_0000_0000_0000
}

proof fn lemma_cost_bounded(edges: Seq<Edge>, flow: Seq<u64>, k: nat)
    requires
        respects_capacity(edges, flow),
        k <= edges.len(),
    ensures
        -capacity_sum(edges, k) * cost_bound() <= cost_sum(edges, flow, k) <= capacity_sum(edges, k)
            * cost_bound(),
    decreases k,
{
    if k > 0 {
        lemma_cost_bounded(edges, flow, (k - 1) as nat);
        let f = flow[k - 1] as int;
        let c = edges[k - 1].cost as int;
        let cap = edges[k - 1].capacity as int;
        assert(0 <= f <= cap);
        assert(-cost_bound() <= c < cost_bound());
        assert(-cap * cost_bound() <= f * c <= cap * cost_bound()) by (nonlinear_arith)
            requires
                0 <= f <= cap,
                -cost_bound() <= c < cost_bound(),
        ;
        assert(capacity_sum(edges, k) == capacity_sum(edges, (k - 1) as nat) + cap);
        let a = capacity_sum(edges, k);
        let b = capacity_sum(edges, (k - 1) as nat);
        assert(a * cost_bound() == b * cost_bound() + cap * cost_bound()) by (nonlinear_arith)
            requires
                a == b + cap,
        ;
    }
}

/// The total cost of a flow that respects capacities.
pub fn total_cost(net: &Network, flows: &Vec<u64>) -> (r: i128)
    requires
        respects_capacity(net.edges@, flows@),
        net.total_capacity() <= u64::MAX,
    ensures
        r == flow_cost(net.edges@, flows@),
{
    let mut acc: i128 = 0;
    let mut j: usize = 0;
    while j < net.edges.len()
        invariant
            j <= net.edges@.len(),
            respects_capacity(net.edges@, flows@),
            net.total_capacity() <= u64::MAX,
            acc == cost_sum(net.edges@, flows@, j as nat),
        decreases net.edges.len() - j,
    {
        proof {
            lemma_cost_bounded(net.edges@, flows@, (j + 1) as nat);
            lemma_capacity_sum_mono(net.edges@, (j + 1) as nat, net.edges@.len());
            let t = capacity_sum(net.edges@, (j + 1) as nat);
            assert(t * cost_bound() <= 0xffff_ffff_ffff_ffff * cost_bound()) by (nonlinear_arith)
                requires
                    t <= 0xffff_ffff_ffff_ffff,
            ;
            assert(flows@[j as int] * net.edges@[j as int].cost <= flows@[j as int] * cost_bound())
                by (nonlinear_arith)
                requires
                    flows@[j as int] >= 0,
                    net.edges@[j as int].cost < cost_bound(),
            ;
            let f = flows@[j as int] as int;
            let c = net.edges@[j as int].cost as int;
            assert(-0x8000_0000_0000_0000_0000_0000_0000_0000 <= f * c <= 0x7fff_ffff_ffff_ffff_ffff_ffff_ffff_ffff)
                by (nonlinear_arith)
                requires
                    0 <= f <= 0xffff_ffff_ffff_ffff,
                    -0x8000_0000_0000_0000 <= c <= 0x7fff_ffff_ffff_ffff,
            ;
        }
        let term: i128 = (flows[j] as i128) * (net.edges[j].cost as i128);
        acc = acc + term;
        j = j + 1;
    }
    acc
}

/// Edge `e` leads from `u` to `v` in the residual graph: forward below
/// capacity, or backward against positive flow.
pub open spec fn directed_step(
    edges: Seq<Edge>,
    flow: Seq<u64>,
    e: int,
    forward: bool,
    u: int,
    v: int,
) -> bool {
    &&& 0 <= e < edges.len()
    &&& if forward {
        edges[e].from == u && edges[e].to == v && flow[e] < edges[e].capacity
    } else {
        edges[e].to == u && edges[e].from == v && flow[e] > 0
    }
}

/// What one residual step costs: the edge's cost forward, its negation backward.
pub open spec fn step_cost(edges: Seq<Edge>, e: int, forward: bool) -> int {
    if forward {
        edges[e].cost as int
    } else {
        -(edges[e].cost as int)
    }
}

/// `nodes` is visited along the residual steps `steps`, each in direction `dirs`.
pub open spec fn is_directed_walk(
    edges: Seq<Edge>,
    flow: Seq<u64>,
    nodes: Seq<int>,
    steps: Seq<int>,
    dirs: Seq<bool>,
) -> bool {
    &&& nodes.len() == steps.len() + 1
    &&& dirs.len() == steps.len()
    &&& forall|i: int|
        0 <= i < steps.len() ==> #[trigger] directed_step(edges, flow, steps[i], dirs[i], nodes[i], nodes[i + 1])
}

/// Cost of the first `k` steps of a walk.
pub open spec fn walk_cost(edges: Seq<Edge>, steps: Seq<int>, dirs: Seq<bool>, k: nat) -> int
    decreases k,
{
    if k == 0 {
        0
    } else {
        walk_cost(edges, steps, dirs, (k - 1) as nat) + step_cost(edges, steps[k - 1], dirs[k - 1])
    }
}

/// Every closed walk of the residual graph costs nothing or more.
pub open spec fn no_negative_cycle(edges: Seq<Edge>, flow: Seq<u64>) -> bool {
    forall|nodes: Seq<int>, steps: Seq<int>, dirs: Seq<bool>|
        #[trigger] is_directed_walk(edges, flow, nodes, steps, dirs) && nodes[0] == nodes.last()
            ==> walk_cost(edges, steps, dirs, steps.len()) >= 0
}

/// No residual edge is shorter than the difference of its ends' potentials.
pub open spec fn valid_potentials(edges: Seq<Edge>, flow: Seq<u64>, pi: Seq<i128>) -> bool {
    forall|e: int|
        0 <= e < edges.len() ==> {
            &&& flow[e] < (#[trigger] edges[e]).capacity ==> pi[edges[e].to as int] <= pi[edges[e].from as int] + edges[e].cost
            &&& flow[e] > 0 ==> pi[edges[e].from as int] <= pi[edges[e].to as int] - edges[e].cost
        }
}

proof fn lemma_walk_cost_potential(
    edges: Seq<Edge>,
    flow: Seq<u64>,
    pi: Seq<i128>,
    nodes: Seq<int>,
    steps: Seq<int>,
    dirs: Seq<bool>,
    k: nat,
)
    requires
        valid_potentials(edges, flow, pi),
        is_directed_walk(edges, flow, nodes, steps, dirs),
        k <= steps.len(),
    ensures
        walk_cost(edges, steps, dirs, k) >= pi[nodes[k as int]] - pi[nodes[0]],
    decreases k,
{
    if k > 0 {
        lemma_walk_cost_potential(edges, flow, pi, nodes, steps, dirs, (k - 1) as nat);
        let i = k - 1;
        assert(directed_step(edges, flow, steps[i], dirs[i], nodes[i], nodes[i + 1]));
    }
}

/// Potentials that no residual edge undercuts rule out negative-cost residual
/// cycles: around a cycle the potential differences cancel.
pub proof fn lemma_potentials_exclude_negative_cycles(edges: Seq<Edge>, flow: Seq<u64>, pi: Seq<i128>)
    requires
        valid_potentials(edges, flow, pi),
    ensures
        no_negative_cycle(edges, flow),
{
    assert forall|nodes: Seq<int>, steps: Seq<int>, dirs: Seq<bool>|
        #[trigger] is_directed_walk(edges, flow, nodes, steps, dirs) && nodes[0] == nodes.last()
            implies walk_cost(edges, steps, dirs, steps.len()) >= 0 by {
        lemma_walk_cost_potential(edges, flow, pi, nodes, steps, dirs, steps.len());
    }
}

/// Shortest-path potentials of the residual graph from a virtual node joined to
/// every node at no cost, by rounds of Bellman-Ford relaxation.
fn residual_potentials(net: &Network, flows: &Vec<u64>) -> (pi: Vec<i128>)
    requires
        net.wf(),
        flows@.len() == net.edges@.len(),
    ensures
        pi@.len() == net.num_nodes,
        forall|v: int|
            0 <= v < net.num_nodes ==> -(net.num_nodes as int) * cost_bound() <= #[trigger] pi@[v] <= 0,
{
    let n = net.num_nodes;
    let ghost edges = net.edges@;
    let mut pi: Vec<i128> = Vec::new();
    let mut i: usize = 0;
    while i < n
        invariant
            i <= n,
            pi@.len() == i,
            forall|v: int| 0 <= v < i ==> pi@[v] == 0,
        decreases n - i,
    {
        pi.push(0);
        i = i + 1;
    }
    let mut round: usize = 0;
    while round < n
        invariant
            net.wf(),
            edges == net.edges@,
            n == net.num_nodes,
            flows@.len() == edges.len(),
            round <= n,
            pi@.len() == n,
            forall|v: int| 0 <= v < n ==> -(round as int) * cost_bound() <= #[trigger] pi@[v] <= 0,
        decreases n - round,
    {
        let mut next: Vec<i128> = pi.clone();
        proof {
            assert(next@ =~= pi@);
        }
        let mut j: usize = 0;
        while j < net.edges.len()
            invariant
                net.wf(),
                edges == net.edges@,
                n == net.num_nodes,
                flows@.len() == edges.len(),
                round < n,
                j <= edges.len(),
                pi@.len() == n,
                next@.len() == n,
                forall|v: int| 0 <= v < n ==> -(round as int) * cost_bound() <= #[trigger] pi@[v] <= 0,
                forall|v: int| 0 <= v < n ==> -(round + 1) * cost_bound() <= #[trigger] next@[v] <= 0,
            decreases edges.len() - j,
        {
            let ed: Edge = net.edges[j];
            assert(edges[j as int].from < n && edges[j as int].to < n);
            proof {
                assert(-(round + 1) * cost_bound() == -(round as int) * cost_bound() - cost_bound());
                assert((n as int) * cost_bound() <= 0x1_0000_0000_0000_0000 * cost_bound()) by (nonlinear_arith)
                    requires
                        n <= 0x1_0000_0000_0000_0000,
                ;
                assert((round + 1) * cost_bound() <= (n as int) * cost_bound()) by (nonlinear_arith)
                    requires
                        round + 1 <= n,
                ;
            }
            if flows[j] < ed.capacity {
                let cand: i128 = pi[ed.from] + ed.cost as i128;
                if cand < next[ed.to] {
                    next.set(ed.to, cand);
                }
            }
            if flows[j] > 0 {
                let cand: i128 = pi[ed.to] - ed.cost as i128;
                if cand < next[ed.from] {
                    next.set(ed.from, cand);
                }
            }
            j = j + 1;
        }
        pi = next;
        round = round + 1;
    }
    pi
}

/// Whether `pi` is a set of potentials that no residual edge undercuts.
fn potentials_hold(net: &Network, flows: &Vec<u64>, pi: &Vec<i128>) -> (r: bool)
    requires
        net.wf(),
        flows@.len() == net.edges@.len(),
        pi@.len() == net.num_nodes,
        forall|v: int| 0 <= v < net.num_nodes ==> -0x4000_0000_0000_0000_0000_0000_0000_0000 <= #[trigger] pi@[v] <= 0,
    ensures
        r == valid_potentials(net.edges@, flows@, pi@),
{
    let ghost edges = net.edges@;
    let mut j: usize = 0;
    while j < net.edges.len()
        invariant
            net.wf(),
            edges == net.edges@,
            flows@.len() == edges.len(),
            pi@.len() == net.num_nodes,
            forall|v: int| 0 <= v < net.num_nodes ==> -0x4000_0000_0000_0000_0000_0000_0000_0000 <= #[trigger] pi@[v] <= 0,
            j <= edges.len(),
            forall|e: int|
                0 <= e < j ==> {
                    &&& flows@[e] < (#[trigger] edges[e]).capacity ==> pi@[edges[e].to as int] <= pi@[edges[e].from as int] + edges[e].cost
                    &&& flows@[e] > 0 ==> pi@[edges[e].from as int] <= pi@[edges[e].to as int] - edges[e].cost
                },
        decreases edges.len() - j,
    {
        let ed: Edge = net.edges[j];
        assert(edges[j as int].from < net.num_nodes && edges[j as int].to < net.num_nodes);
        let a: i128 = pi[ed.from];
        let b: i128 = pi[ed.to];
        let c: i128 = ed.cost as i128;
        if flows[j] < ed.capacity && b > a + c {
            return false;
        }
        if flows[j] > 0 && a > b - c {
            return false;
        }
        j = j + 1;
    }
    true
}

/// Whether the residual graph of `flows` is shown free of negative-cost cycles
/// by Bellman-Ford potentials. A `true` answer is a proof of it.
pub fn certify_no_negative_cycle(net: &Network, flows: &Vec<u64>) -> (r: bool)
    requires
        net.wf(),
        flows@.len() == net.edges@.len(),
    ensures
        r ==> no_negative_cycle(net.edges@, flows@),
{
    if net.num_nodes as u128 > 0x8000_0000_0000_0000u128 {
        return false;
    }
    let pi = residual_potentials(net, flows);
    proof {
        let n = net.num_nodes as int;
        assert(n * cost_bound() <= 0x8000_0000_0000_0000 * cost_bound()) by (nonlinear_arith)
            requires
                n <= 0x8000_0000_0000_0000,
        ;
    }
    let ok = potentials_hold(net, flows, &pi);
    proof {
        if ok {
            lemma_potentials_exclude_negative_cycles(net.edges@, flows@, pi@);
        }
    }
    ok
}

} // verus!
