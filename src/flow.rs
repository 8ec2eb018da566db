use crate::network::{capacity_sum, lemma_capacity_sum_mono, edges_within, Edge, FlowError, Network};
use vstd::prelude::*;

verus! {

/// Flow leaving node `v` over the first `k` edges.
pub open spec fn out_flow(edges: Seq<Edge>, flow: Seq<u64>, v: int, k: nat) -> int
    decreases k,
{
    if k == 0 {
        0
    } else {
        out_flow(edges, flow, v, (k - 1) as nat) + if edges[k - 1].from == v {
            flow[k - 1] as int
        } else {
            0
        }
    }
}

/// Flow entering node `v` over the first `k` edges.
pub open spec fn in_flow(edges: Seq<Edge>, flow: Seq<u64>, v: int, k: nat) -> int
    decreases k,
{
    if k == 0 {
        0
    } else {
        in_flow(edges, flow, v, (k - 1) as nat) + if edges[k - 1].to == v {
            flow[k - 1] as int
        } else {
            0
        }
    }
}

/// Total flow leaving `v`.
pub open spec fn outbound(edges: Seq<Edge>, flow: Seq<u64>, v: int) -> int {
    out_flow(edges, flow, v, edges.len())
}

/// Total flow entering `v`.
pub open spec fn inbound(edges: Seq<Edge>, flow: Seq<u64>, v: int) -> int {
    in_flow(edges, flow, v, edges.len())
}

/// One amount per edge, none above the edge's capacity.
pub open spec fn respects_capacity(edges: Seq<Edge>, flow: Seq<u64>) -> bool {
    &&& flow.len() == edges.len()
    &&& forall|e: int| 0 <= e < flow.len() ==> #[trigger] flow[e] <= edges[e].capacity
}

/// Every node but the source and the sink passes on all it receives.
pub open spec fn conserves(edges: Seq<Edge>, flow: Seq<u64>, n: nat, s: int, t: int) -> bool {
    forall|v: int|
        0 <= v < n && v != s && v != t ==> #[trigger] outbound(edges, flow, v) == inbound(
            edges,
            flow,
            v,
        )
}

/// Edge `e` lets one more unit go from `u` to `v` in the residual graph: forward
/// below capacity, or backward against positive flow.
pub open spec fn residual_step(edges: Seq<Edge>, flow: Seq<u64>, e: int, u: int, v: int) -> bool {
    &&& 0 <= e < edges.len()
    &&& {
        ||| (edges[e].from == u && edges[e].to == v && flow[e] < edges[e].capacity)
        ||| (edges[e].to == u && edges[e].from == v && flow[e] > 0)
    }
}

/// `nodes` is visited along the residual edges `steps`, one step per edge.
pub open spec fn is_residual_walk(
    edges: Seq<Edge>,
    flow: Seq<u64>,
    nodes: Seq<int>,
    steps: Seq<int>,
) -> bool {
    &&& nodes.len() == steps.len() + 1
    &&& forall|i: int|
        0 <= i < steps.len() ==> #[trigger] residual_step(edges, flow, steps[i], nodes[i], nodes[i + 1])
}

/// A residual walk from `s` to `v`.
pub open spec fn walk_between(
    edges: Seq<Edge>,
    flow: Seq<u64>,
    w: (Seq<int>, Seq<int>),
    s: int,
    v: int,
) -> bool {
    &&& is_residual_walk(edges, flow, w.0, w.1)
    &&& w.0[0] == s
    &&& w.0.last() == v
}

/// No residual walk leads from `s` to `t`.
pub open spec fn no_augmenting_path(edges: Seq<Edge>, flow: Seq<u64>, s: int, t: int) -> bool {
    forall|w: (Seq<int>, Seq<int>)| !#[trigger] walk_between(edges, flow, w, s, t)
}

/// A feasible flow with no augmenting path, in which the source sends at least
/// as much as it takes back.
pub open spec fn is_max_flow(edges: Seq<Edge>, n: nat, flow: Seq<u64>, s: int, t: int) -> bool {
    &&& respects_capacity(edges, flow)
    &&& conserves(edges, flow, n, s, t)
    &&& inbound(edges, flow, s) <= outbound(edges, flow, s)
    &&& no_augmenting_path(edges, flow, s, t)
}

/// A set of nodes that no residual edge leaves.
pub open spec fn residually_closed(edges: Seq<Edge>, flow: Seq<u64>, set: Seq<bool>) -> bool {
    forall|e: int|
        0 <= e < edges.len() ==> {
            &&& (set[(#[trigger] edges[e]).from as int] && flow[e] < edges[e].capacity) ==> set[edges[e].to as int]
            &&& (set[edges[e].to as int] && flow[e] > 0) ==> set[edges[e].from as int]
        }
}

/// A flow assignment and its value.
pub struct FlowSolution {
    pub value: u64,
    pub flows: Vec<u64>,
}

pub open spec fn count_true(s: Seq<bool>) -> nat
    decreases s.len(),
{
    if s.len() == 0 {
        0
    } else {
        count_true(s.drop_last()) + if s.last() {
            1nat
        } else {
            0nat
        }
    }
}

pub(crate) proof fn lemma_count_bound(s: Seq<bool>)
    ensures
        count_true(s) <= s.len(),
    decreases s.len(),
{
    if s.len() > 0 {
        lemma_count_bound(s.drop_last());
    }
}

pub(crate) proof fn lemma_count_update(s: Seq<bool>, i: int)
    requires
        0 <= i < s.len(),
        !s[i],
    ensures
        count_true(s.update(i, true)) == count_true(s) + 1,
    decreases s.len(),
{
    let u = s.update(i, true);
    if i == s.len() - 1 {
        assert(u.drop_last() =~= s.drop_last());
    } else {
        assert(u.drop_last() =~= s.drop_last().update(i, true));
        lemma_count_update(s.drop_last(), i);
    }
}

pub(crate) proof fn lemma_out_bounded(edges: Seq<Edge>, flow: Seq<u64>, v: int, k: nat)
    requires
        respects_capacity(edges, flow),
        k <= edges.len(),
    ensures
        0 <= out_flow(edges, flow, v, k) <= capacity_sum(edges, k),
        0 <= in_flow(edges, flow, v, k) <= capacity_sum(edges, k),
    decreases k,
{
    if k > 0 {
        lemma_out_bounded(edges, flow, v, (k - 1) as nat);
        assert(flow[k - 1] <= edges[k - 1].capacity);
    }
}

/// A residual walk that starts in a closed set stays in it.
proof fn lemma_walk_stays(edges: Seq<Edge>, flow: Seq<u64>, set: Seq<bool>, nodes: Seq<int>, steps: Seq<int>, n: nat)
    requires
        edges_within(edges, n),
        set.len() == n,
        residually_closed(edges, flow, set),
        is_residual_walk(edges, flow, nodes, steps),
        0 <= nodes[0] < n,
        set[nodes[0]],
    ensures
        0 <= nodes.last() < n,
        set[nodes.last()],
    decreases steps.len(),
{
    if steps.len() > 0 {
        let k = steps.len() - 1;
        let np = nodes.drop_last();
        let vp = steps.drop_last();
        assert forall|i: int| 0 <= i < vp.len() implies #[trigger] residual_step(edges, flow, vp[i], np[i], np[i + 1]) by {
            assert(residual_step(edges, flow, steps[i], nodes[i], nodes[i + 1]));
        }
        lemma_walk_stays(edges, flow, set, np, vp, n);
        assert(residual_step(edges, flow, steps[k], nodes[k], nodes[k + 1]));
        let e = steps[k];
        assert(edges[e].from < n && edges[e].to < n);
    }
}

/// Sum of out- and in-flow of `v` over all edges.
fn node_sums(edges: &Vec<Edge>, flows: &Vec<u64>, v: usize) -> (r: (u64, u64))
    requires
        respects_capacity(edges@, flows@),
        capacity_sum(edges@, edges@.len()) <= u64::MAX,
    ensures
        r.0 == outbound(edges@, flows@, v as int),
        r.1 == inbound(edges@, flows@, v as int),
{
    let mut out: u64 = 0;
    let mut inn: u64 = 0;
    let mut j: usize = 0;
    while j < edges.len()
        invariant
            j <= edges.len(),
            respects_capacity(edges@, flows@),
            capacity_sum(edges@, edges@.len()) <= u64::MAX,
            out == out_flow(edges@, flows@, v as int, j as nat),
            inn == in_flow(edges@, flows@, v as int, j as nat),
        decreases edges.len() - j,
    {
        proof {
            lemma_out_bounded(edges@, flows@, v as int, (j + 1) as nat);
            lemma_capacity_sum_mono(edges@, (j + 1) as nat, edges@.len());
        }
        if edges[j].from == v {
            out = out + flows[j];
        }
        if edges[j].to == v {
            inn = inn + flows[j];
        }
        j = j + 1;
    }
    (out, inn)
}

/// Edge `e` leads nowhere outside `set` from `u` in the residual graph.
pub open spec fn edge_settled(edges: Seq<Edge>, flow: Seq<u64>, set: Seq<bool>, u: int, e: int) -> bool {
    &&& (edges[e].from == u && flow[e] < edges[e].capacity) ==> set[edges[e].to as int]
    &&& (edges[e].to == u && flow[e] > 0) ==> set[edges[e].from as int]
}

pub(crate) proof fn lemma_count_zero(s: Seq<bool>)
    requires
        forall|i: int| 0 <= i < s.len() ==> !s[i],
    ensures
        count_true(s) == 0,
    decreases s.len(),
{
    if s.len() > 0 {
        lemma_count_zero(s.drop_last());
    }
}

proof fn lemma_walk_extend(edges: Seq<Edge>, flow: Seq<u64>, w: (Seq<int>, Seq<int>), s: int, u: int, e: int, v: int)
    requires
        walk_between(edges, flow, w, s, u),
        residual_step(edges, flow, e, u, v),
    ensures
        walk_between(edges, flow, (w.0.push(v), w.1.push(e)), s, v),
{
    let nodes = w.0.push(v);
    let steps = w.1.push(e);
    assert forall|i: int| 0 <= i < steps.len() implies #[trigger] residual_step(edges, flow, steps[i], nodes[i], nodes[i + 1]) by {
        if i < w.1.len() {
            assert(residual_step(edges, flow, w.1[i], w.0[i], w.0[i + 1]));
        }
    }
}

/// Marks every node that a residual walk from `s` reaches.
fn residual_closure(net: &Network, flows: &Vec<u64>, s: usize) -> (r: Vec<bool>)
    requires
        net.wf(),
        s < net.num_nodes,
        flows@.len() == net.edges@.len(),
    ensures
        r@.len() == net.num_nodes,
        r@[s as int],
        residually_closed(net.edges@, flows@, r@),
        forall|v: int|
            0 <= v < net.num_nodes && #[trigger] r@[v] ==> exists|w: (Seq<int>, Seq<int>)|
                walk_between(net.edges@, flows@, w, s as int, v),
{
    let n = net.num_nodes;
    let ghost edges = net.edges@;
    let mut visited: Vec<bool> = Vec::new();
    let mut i: usize = 0;
    while i < n
        invariant
            i <= n,
            visited@.len() == i,
            forall|j: int| 0 <= j < i ==> !visited@[j],
        decreases n - i,
    {
        visited.push(false);
        i = i + 1;
    }
    proof {
        lemma_count_zero(visited@);
        lemma_count_update(visited@, s as int);
    }
    visited.set(s, true);
    let ghost mut walks: Seq<(Seq<int>, Seq<int>)> = Seq::new(
        n as nat,
        |v: int| (seq![s as int], Seq::<int>::empty()),
    );
    let mut queue: Vec<usize> = Vec::new();
    queue.push(s);
    let mut head: usize = 0;
    proof {
        assert(queue@[0] == s);
        assert forall|v: int| 0 <= v < n && visited@[v] implies walk_between(edges, flows@, walks[v], s as int, v) by {
            assert(walks[v].0 =~= seq![s as int]);
        }
    }
    while head < queue.len()
        invariant
            net.wf(),
            edges == net.edges@,
            s < n,
            n == net.num_nodes,
            flows@.len() == edges.len(),
            visited@.len() == n,
            walks.len() == n,
            head <= queue@.len(),
            queue@.len() == count_true(visited@),
            visited@[s as int],
            forall|i: int| 0 <= i < queue@.len() ==> (#[trigger] queue@[i]) < n && visited@[queue@[i] as int],
            forall|v: int| 0 <= v < n && #[trigger] visited@[v] ==> exists|i: int| 0 <= i < queue@.len() && queue@[i] == v,
            forall|v: int| 0 <= v < n && #[trigger] visited@[v] ==> walk_between(edges, flows@, walks[v], s as int, v),
            forall|i: int, e: int| 0 <= i < head && 0 <= e < edges.len() ==> #[trigger] edge_settled(edges, flows@, visited@, queue@[i] as int, e),
        decreases n - head,
    {
        let u = queue[head];
        let mut j: usize = 0;
        while j < net.edges.len()
            invariant
                net.wf(),
                edges == net.edges@,
                s < n,
                n == net.num_nodes,
                flows@.len() == edges.len(),
                visited@.len() == n,
                walks.len() == n,
                head < queue@.len(),
                u == queue@[head as int],
                j <= edges.len(),
                queue@.len() == count_true(visited@),
                visited@[s as int],
                forall|i: int| 0 <= i < queue@.len() ==> (#[trigger] queue@[i]) < n && visited@[queue@[i] as int],
                forall|v: int| 0 <= v < n && #[trigger] visited@[v] ==> exists|i: int| 0 <= i < queue@.len() && queue@[i] == v,
                forall|v: int| 0 <= v < n && #[trigger] visited@[v] ==> walk_between(edges, flows@, walks[v], s as int, v),
                forall|i: int, e: int| 0 <= i < head && 0 <= e < edges.len() ==> #[trigger] edge_settled(edges, flows@, visited@, queue@[i] as int, e),
                forall|e: int| 0 <= e < j ==> #[trigger] edge_settled(edges, flows@, visited@, u as int, e),
            decreases edges.len() - j,
        {
            let ed = net.edges[j];
            assert(edges[j as int].from < n && edges[j as int].to < n);
            if ed.from == u && flows[j] < ed.capacity && !visited[ed.to] {
                let v = ed.to;
                let ghost before = visited@;
                let ghost qbefore = queue@;
                proof {
                    lemma_count_update(before, v as int);
                    lemma_walk_extend(edges, flows@, walks[u as int], s as int, u as int, j as int, v as int);
                    walks = walks.update(v as int, (walks[u as int].0.push(v as int), walks[u as int].1.push(j as int)));
                }
                visited.set(v, true);
                queue.push(v);
                proof {
                    assert forall|x: int| 0 <= x < n && #[trigger] visited@[x] implies exists|i: int| 0 <= i < queue@.len() && queue@[i] == x by {
                        if x == v as int {
                            assert(queue@[queue@.len() - 1] == x);
                        } else {
                            assert(before[x]);
                            let i = choose|i: int| 0 <= i < qbefore.len() && qbefore[i] == x;
                            assert(queue@[i] == x);
                        }
                    }
                    assert forall|i: int, e: int| 0 <= i < head && 0 <= e < edges.len() implies #[trigger] edge_settled(edges, flows@, visited@, queue@[i] as int, e) by {
                        assert(queue@[i] == qbefore[i]);
                        assert(edge_settled(edges, flows@, before, qbefore[i] as int, e));
                    }
                    assert forall|e: int| 0 <= e < j implies #[trigger] edge_settled(edges, flows@, visited@, u as int, e) by {
                        assert(edge_settled(edges, flows@, before, u as int, e));
                    }
                    assert forall|i: int| 0 <= i < queue@.len() implies (#[trigger] queue@[i]) < n && visited@[queue@[i] as int] by {
                        if i < qbefore.len() {
                            assert(queue@[i] == qbefore[i]);
                        }
                    }
                }
            }
            if ed.to == u && flows[j] > 0 && !visited[ed.from] {
                let v = ed.from;
                let ghost before = visited@;
                let ghost qbefore = queue@;
                proof {
                    lemma_count_update(before, v as int);
                    lemma_walk_extend(edges, flows@, walks[u as int], s as int, u as int, j as int, v as int);
                    walks = walks.update(v as int, (walks[u as int].0.push(v as int), walks[u as int].1.push(j as int)));
                }
                visited.set(v, true);
                queue.push(v);
                proof {
                    assert forall|x: int| 0 <= x < n && #[trigger] visited@[x] implies exists|i: int| 0 <= i < queue@.len() && queue@[i] == x by {
                        if x == v as int {
                            assert(queue@[queue@.len() - 1] == x);
                        } else {
                            assert(before[x]);
                            let i = choose|i: int| 0 <= i < qbefore.len() && qbefore[i] == x;
                            assert(queue@[i] == x);
                        }
                    }
                    assert forall|i: int, e: int| 0 <= i < head && 0 <= e < edges.len() implies #[trigger] edge_settled(edges, flows@, visited@, queue@[i] as int, e) by {
                        assert(queue@[i] == qbefore[i]);
                        assert(edge_settled(edges, flows@, before, qbefore[i] as int, e));
                    }
                    assert forall|e: int| 0 <= e < j implies #[trigger] edge_settled(edges, flows@, visited@, u as int, e) by {
                        assert(edge_settled(edges, flows@, before, u as int, e));
                    }
                    assert forall|i: int| 0 <= i < queue@.len() implies (#[trigger] queue@[i]) < n && visited@[queue@[i] as int] by {
                        if i < qbefore.len() {
                            assert(queue@[i] == qbefore[i]);
                        }
                    }
                }
            }
            j = j + 1;
        }
        proof {
            lemma_count_bound(visited@);
            assert forall|i: int, e: int| 0 <= i < head + 1 && 0 <= e < edges.len() implies #[trigger] edge_settled(edges, flows@, visited@, queue@[i] as int, e) by {
                if i == head as int {
                    assert(edge_settled(edges, flows@, visited@, u as int, e));
                }
            }
        }
        head = head + 1;
    }
    proof {
        assert forall|e: int| 0 <= e < edges.len() implies {
            &&& (visited@[(#[trigger] edges[e]).from as int] && flows@[e] < edges[e].capacity) ==> visited@[edges[e].to as int]
            &&& (visited@[edges[e].to as int] && flows@[e] > 0) ==> visited@[edges[e].from as int]
        } by {
            let a = edges[e].from as int;
            let b = edges[e].to as int;
            assert(a < n && b < n);
            if visited@[a] {
                let i = choose|i: int| 0 <= i < queue@.len() && queue@[i] == a;
                assert(edge_settled(edges, flows@, visited@, queue@[i] as int, e));
            }
            if visited@[b] {
                let i = choose|i: int| 0 <= i < queue@.len() && queue@[i] == b;
                assert(edge_settled(edges, flows@, visited@, queue@[i] as int, e));
            }
        }
        assert forall|v: int| 0 <= v < n && #[trigger] visited@[v] implies exists|w: (Seq<int>, Seq<int>)| walk_between(edges, flows@, w, s as int, v) by {
            assert(walk_between(edges, flows@, walks[v], s as int, v));
        }
    }
    visited
}

/// Sum over the nodes below `m` of what each sends out minus what it takes in,
/// over the first `k` edges.
pub open spec fn balance_sum(edges: Seq<Edge>, flow: Seq<u64>, k: nat, m: nat) -> int
    decreases m,
{
    if m == 0 {
        0
    } else {
        balance_sum(edges, flow, k, (m - 1) as nat) + out_flow(edges, flow, (m - 1) as int, k)
            - in_flow(edges, flow, (m - 1) as int, k)
    }
}

proof fn lemma_balance_step(edges: Seq<Edge>, flow: Seq<u64>, k: nat, m: nat)
    requires
        k > 0,
    ensures
        balance_sum(edges, flow, k, m) == balance_sum(edges, flow, (k - 1) as nat, m) + (if edges[k
            - 1].from < m {
            flow[k - 1] as int
        } else {
            0
        }) - (if edges[k - 1].to < m {
            flow[k - 1] as int
        } else {
            0
        }),
    decreases m,
{
    if m > 0 {
        lemma_balance_step(edges, flow, k, (m - 1) as nat);
    }
}

/// Each edge takes from one node what it gives to another, so the balances of
/// all nodes add up to nothing.
proof fn lemma_balance_zero(edges: Seq<Edge>, flow: Seq<u64>, k: nat, n: nat)
    requires
        edges_within(edges, n),
        k <= edges.len(),
    ensures
        balance_sum(edges, flow, k, n) == 0,
    decreases k,
{
    if k == 0 {
        lemma_balance_empty(edges, flow, n);
    } else {
        lemma_balance_zero(edges, flow, (k - 1) as nat, n);
        lemma_balance_step(edges, flow, k, n);
        assert(edges[k - 1].from < n && edges[k - 1].to < n);
    }
}

proof fn lemma_balance_empty(edges: Seq<Edge>, flow: Seq<u64>, m: nat)
    ensures
        balance_sum(edges, flow, 0, m) == 0,
    decreases m,
{
    if m > 0 {
        lemma_balance_empty(edges, flow, (m - 1) as nat);
    }
}

proof fn lemma_balance_terminals(edges: Seq<Edge>, flow: Seq<u64>, n: nat, s: int, t: int, m: nat)
    requires
        conserves(edges, flow, n, s, t),
        s != t,
        m <= n,
    ensures
        balance_sum(edges, flow, edges.len(), m) == (if 0 <= s < m {
            outbound(edges, flow, s) - inbound(edges, flow, s)
        } else {
            0
        }) + (if 0 <= t < m {
            outbound(edges, flow, t) - inbound(edges, flow, t)
        } else {
            0
        }),
    decreases m,
{
    if m > 0 {
        lemma_balance_terminals(edges, flow, n, s, t, (m - 1) as nat);
        let v = (m - 1) as int;
        if v != s && v != t {
            assert(outbound(edges, flow, v) == inbound(edges, flow, v));
        }
    }
}

/// In a feasible flow what the source sends on balance is what the sink takes
/// in on balance.
pub proof fn lemma_value_consistent(edges: Seq<Edge>, flow: Seq<u64>, n: nat, s: int, t: int)
    requires
        edges_within(edges, n),
        conserves(edges, flow, n, s, t),
        0 <= s < n,
        0 <= t < n,
        s != t,
    ensures
        outbound(edges, flow, s) - inbound(edges, flow, s) == inbound(edges, flow, t) - outbound(
            edges,
            flow,
            t,
        ),
{
    lemma_balance_zero(edges, flow, edges.len(), n);
    lemma_balance_terminals(edges, flow, n, s, t, n);
}

/// Checks that `flows` is a maximum flow from `source` to `sink` in `net`, and
/// returns it with its value.
pub fn certify_flow(net: &Network, source: usize, sink: usize, flows: Vec<u64>) -> (r: Result<
    FlowSolution,
    FlowError,
>)
    requires
        net.wf(),
        net.total_capacity() <= u64::MAX,
    ensures
        (source >= net.num_nodes || sink >= net.num_nodes) ==> r == Err::<FlowSolution, FlowError>(
            FlowError::InvalidNode,
        ),
        (source < net.num_nodes && sink < net.num_nodes && source == sink) ==> r == Err::<
            FlowSolution,
            FlowError,
        >(FlowError::DegenerateNetwork),
        (source < net.num_nodes && sink < net.num_nodes && source != sink) ==> (r is Ok
            <==> is_max_flow(net.edges@, net.num_nodes as nat, flows@, source as int, sink as int)),
        (source < net.num_nodes && sink < net.num_nodes && source != sink && !is_max_flow(
            net.edges@,
            net.num_nodes as nat,
            flows@,
            source as int,
            sink as int,
        )) ==> r == Err::<FlowSolution, FlowError>(FlowError::InvalidFlow),
        r matches Ok(sol) ==> {
            &&& sol.flows@ == flows@
            &&& sol.value == outbound(net.edges@, flows@, source as int) - inbound(
                net.edges@,
                flows@,
                source as int,
            )
            &&& sol.value == inbound(net.edges@, flows@, sink as int) - outbound(
                net.edges@,
                flows@,
                sink as int,
            )
        },
{
    let n = net.num_nodes;
    let ghost edges = net.edges@;
    if source >= n || sink >= n {
        return Err(FlowError::InvalidNode);
    }
    if source == sink {
        return Err(FlowError::DegenerateNetwork);
    }
    if flows.len() != net.edges.len() {
        return Err(FlowError::InvalidFlow);
    }
    let mut j: usize = 0;
    while j < flows.len()
        invariant
            j <= flows@.len(),
            flows@.len() == edges.len(),
            edges == net.edges@,
            forall|e: int| 0 <= e < j ==> #[trigger] flows@[e] <= edges[e].capacity,
            n == net.num_nodes,
            source < n && sink < n && source != sink,
        decreases flows.len() - j,
    {
        if flows[j] > net.edges[j].capacity {
            return Err(FlowError::InvalidFlow);
        }
        j = j + 1;
    }
    let mut v: usize = 0;
    while v < n
        invariant
            v <= n,
            n == net.num_nodes,
            edges == net.edges@,
            net.total_capacity() <= u64::MAX,
            respects_capacity(edges, flows@),
            source < n && sink < n && source != sink,
            forall|x: int|
                0 <= x < v && x != source && x != sink ==> #[trigger] outbound(edges, flows@, x)
                    == inbound(edges, flows@, x),
        decreases n - v,
    {
        if v != source && v != sink {
            let (o, i) = node_sums(&net.edges, &flows, v);
            if o != i {
                return Err(FlowError::InvalidFlow);
            }
        }
        v = v + 1;
    }
    let (so, si) = node_sums(&net.edges, &flows, source);
    if si > so {
        return Err(FlowError::InvalidFlow);
    }
    let reach = residual_closure(net, &flows, source);
    if reach[sink] {
        return Err(FlowError::InvalidFlow);
    }
    proof {
        assert forall|w: (Seq<int>, Seq<int>)| !#[trigger] walk_between(edges, flows@, w, source as int, sink as int) by {
            if walk_between(edges, flows@, w, source as int, sink as int) {
                lemma_walk_stays(edges, flows@, reach@, w.0, w.1, n as nat);
            }
        }
        lemma_value_consistent(edges, flows@, n as nat, source as int, sink as int);
    }
    Ok(FlowSolution { value: so - si, flows })
}

} // verus!
