use crate::flow::{respects_capacity, count_true, lemma_count_bound, lemma_count_update, lemma_count_zero};
use crate::builder::{
    allocation_edges, demand_edges, item_edges, item_node, recipient_node, supply_edges, Item,
    Recipient,
};
use crate::flow::{conserves, in_flow, inbound, out_flow, outbound};
use crate::builder::{duplicate_items, duplicate_recipients, unknown_reference};
use crate::mincost::{excess, lemma_update_sums, lemma_zero_sums};
use crate::network::FlowError;
use crate::solver::{allocate, within_limits, Allocation};
use crate::network::{Edge, Network};
use vstd::prelude::*;

verus! {

/// A source-to-sink path, as edge identifiers, and the amount it carries.
pub struct FlowPath {
    pub edges: Vec<usize>,
    pub amount: u64,
}

/// A flow split into paths, and what no path took.
pub struct Decomposition {
    pub paths: Vec<FlowPath>,
    pub remaining: Vec<u64>,
}

/// `p` is a chain of edges that leaves `s` and ends at `v`; empty when `v` is `s`.
pub open spec fn chain_to(edges: Seq<Edge>, p: Seq<usize>, s: int, v: int) -> bool {
    &&& forall|i: int| 0 <= i < p.len() ==> #[trigger] p[i] < edges.len()
    &&& p.len() == 0 ==> v == s
    &&& p.len() > 0 ==> {
        &&& edges[p[0] as int].from == s
        &&& edges[p.last() as int].to == v
        &&& forall|i: int|
            0 <= i < p.len() - 1 ==> edges[#[trigger] p[i] as int].to == edges[p[i + 1] as int].from
    }
}

/// No edge occurs twice in `p`.
pub open spec fn distinct_edges(p: Seq<usize>) -> bool {
    forall|i: int, j: int| 0 <= i < j < p.len() ==> p[i] != p[j]
}

/// `p` is a non-empty source-to-sink path without repeated edges.
pub open spec fn is_path(edges: Seq<Edge>, p: Seq<usize>, s: int, t: int) -> bool {
    &&& p.len() > 0
    &&& chain_to(edges, p, s, t)
    &&& distinct_edges(p)
}

/// Every edge of `p` still has flow left.
pub open spec fn all_positive(rem: Seq<u64>, p: Seq<usize>) -> bool {
    forall|i: int| 0 <= i < p.len() ==> rem[#[trigger] p[i] as int] > 0
}

/// Every edge that leaves a node of `set` with flow left ends in `set`.
pub open spec fn positive_closed(edges: Seq<Edge>, rem: Seq<u64>, set: Seq<bool>) -> bool {
    forall|e: int|
        0 <= e < edges.len() ==> (set[(#[trigger] edges[e]).from as int] && rem[e] > 0 ==> set[edges[e].to as int])
}

proof fn lemma_closed_path(edges: Seq<Edge>, rem: Seq<u64>, set: Seq<bool>, p: Seq<usize>, s: int, k: int)
    requires
        positive_closed(edges, rem, set),
        chain_to(edges, p, s, edges[p.last() as int].to as int),
        p.len() > 0,
        set[s],
        all_positive(rem, p),
        0 <= k < p.len(),
    ensures
        set[edges[p[k] as int].to as int],
    decreases k,
{
    if k > 0 {
        lemma_closed_path(edges, rem, set, p, s, k - 1);
        assert(edges[p[k - 1] as int].to == edges[p[k] as int].from);
    }
    assert(p[k] < edges.len());
    assert(rem[p[k] as int] > 0);
}

/// Finds a path from `s` to `t` over edges with flow left, by breadth-first
/// search; `None` exactly when there is none.
fn find_walk(net: &Network, rem: &Vec<u64>, s: usize, t: usize) -> (r: Option<Vec<usize>>)
    requires
        net.wf(),
        s < net.num_nodes,
        t < net.num_nodes,
        s != t,
        rem@.len() == net.edges@.len(),
    ensures
        r matches Some(p) ==> is_path(net.edges@, p@, s as int, t as int) && all_positive(rem@, p@),
        r is None ==> forall|p: Seq<usize>|
            is_path(net.edges@, p, s as int, t as int) ==> !#[trigger] all_positive(rem@, p),
{
    let n = net.num_nodes;
    let ghost edges = net.edges@;
    let mut visited: Vec<bool> = Vec::new();
    let mut dist: Vec<usize> = Vec::new();
    let mut pred: Vec<usize> = Vec::new();
    let mut i: usize = 0;
    while i < n
        invariant
            i <= n,
            visited@.len() == i,
            dist@.len() == i,
            pred@.len() == i,
            forall|j: int| 0 <= j < i ==> !visited@[j],
            forall|j: int| 0 <= j < i ==> dist@[j] == 0,
        decreases n - i,
    {
        visited.push(false);
        dist.push(0);
        pred.push(0);
        i = i + 1;
    }
    proof {
        lemma_count_zero(visited@);
        lemma_count_update(visited@, s as int);
    }
    visited.set(s, true);
    let mut queue: Vec<usize> = Vec::new();
    queue.push(s);
    let mut head: usize = 0;
    proof {
        assert(queue@[0] == s);
        assert forall|v: int| 0 <= v < n && #[trigger] visited@[v] implies exists|i: int| 0 <= i < queue@.len() && queue@[i] == v by {
            assert(v == s as int);
        }
    }
    while head < queue.len()
        invariant
            net.wf(),
            edges == net.edges@,
            n == net.num_nodes,
            s < n,
            rem@.len() == edges.len(),
            visited@.len() == n,
            dist@.len() == n,
            pred@.len() == n,
            head <= queue@.len(),
            queue@.len() == count_true(visited@),
            visited@[s as int],
            dist@[s as int] == 0,
            forall|i: int| 0 <= i < queue@.len() ==> (#[trigger] queue@[i]) < n && visited@[queue@[i] as int],
            forall|v: int| 0 <= v < n && #[trigger] visited@[v] ==> exists|i: int| 0 <= i < queue@.len() && queue@[i] == v,
            forall|v: int| 0 <= v < n && #[trigger] visited@[v] ==> dist@[v] < queue@.len(),
            forall|v: int|
                0 <= v < n && v != s && #[trigger] visited@[v] ==> {
                    &&& pred@[v] < edges.len()
                    &&& edges[pred@[v] as int].to == v
                    &&& rem@[pred@[v] as int] > 0
                    &&& visited@[edges[pred@[v] as int].from as int]
                    &&& dist@[edges[pred@[v] as int].from as int] < dist@[v]
                },
            forall|i: int, e: int|
                0 <= i < head && 0 <= e < edges.len() && (#[trigger] edges[e]).from == #[trigger] queue@[i]
                    && rem@[e] > 0 ==> visited@[edges[e].to as int],
        decreases n - head,
    {
        let u = queue[head];
        let mut j: usize = 0;
        while j < net.edges.len()
            invariant
                net.wf(),
                edges == net.edges@,
                n == net.num_nodes,
                s < n,
                rem@.len() == edges.len(),
                visited@.len() == n,
                dist@.len() == n,
                pred@.len() == n,
                head < queue@.len(),
                u == queue@[head as int],
                j <= edges.len(),
                queue@.len() == count_true(visited@),
                visited@[s as int],
                dist@[s as int] == 0,
                forall|i: int| 0 <= i < queue@.len() ==> (#[trigger] queue@[i]) < n && visited@[queue@[i] as int],
                forall|v: int| 0 <= v < n && #[trigger] visited@[v] ==> exists|i: int| 0 <= i < queue@.len() && queue@[i] == v,
                forall|v: int| 0 <= v < n && #[trigger] visited@[v] ==> dist@[v] < queue@.len(),
                forall|v: int|
                    0 <= v < n && v != s && #[trigger] visited@[v] ==> {
                        &&& pred@[v] < edges.len()
                        &&& edges[pred@[v] as int].to == v
                        &&& rem@[pred@[v] as int] > 0
                        &&& visited@[edges[pred@[v] as int].from as int]
                        &&& dist@[edges[pred@[v] as int].from as int] < dist@[v]
                    },
                forall|i: int, e: int|
                    0 <= i < head && 0 <= e < edges.len() && (#[trigger] edges[e]).from == #[trigger] queue@[i]
                        && rem@[e] > 0 ==> visited@[edges[e].to as int],
                forall|e: int|
                    0 <= e < j && (#[trigger] edges[e]).from == u && rem@[e] > 0 ==> visited@[edges[e].to as int],
            decreases edges.len() - j,
        {
            let ed: Edge = net.edges[j];
            assert(edges[j as int].from < n && edges[j as int].to < n);
            if ed.from == u && rem[j] > 0 && !visited[ed.to] {
                let v = ed.to;
                let ghost before = visited@;
                let ghost qbefore = queue@;
                let ghost dbefore = dist@;
                let ghost pbefore = pred@;
                proof {
                    lemma_count_update(before, v as int);
                }
                visited.set(v, true);
                dist.set(v, queue.len());
                pred.set(v, j);
                queue.push(v);
                proof {
                    assert(v != s);
                    assert forall|x: int| 0 <= x < n && #[trigger] visited@[x] implies exists|i: int| 0 <= i < queue@.len() && queue@[i] == x by {
                        if x == v as int {
                            assert(queue@[queue@.len() - 1] == x);
                        } else {
                            assert(before[x]);
                            let i = choose|i: int| 0 <= i < qbefore.len() && qbefore[i] == x;
                            assert(queue@[i] == x);
                        }
                    }
                    assert forall|i: int| 0 <= i < queue@.len() implies (#[trigger] queue@[i]) < n && visited@[queue@[i] as int] by {
                        if i < qbefore.len() {
                            assert(queue@[i] == qbefore[i]);
                        }
                    }
                    assert forall|x: int| 0 <= x < n && #[trigger] visited@[x] implies dist@[x] < queue@.len() by {
                        if x != v as int {
                            assert(before[x]);
                        }
                    }
                    assert(before[u as int]);
                    assert(dbefore[u as int] < qbefore.len());
                    assert forall|x: int|
                        0 <= x < n && x != s && #[trigger] visited@[x] implies {
                            &&& pred@[x] < edges.len()
                            &&& edges[pred@[x] as int].to == x
                            &&& rem@[pred@[x] as int] > 0
                            &&& visited@[edges[pred@[x] as int].from as int]
                            &&& dist@[edges[pred@[x] as int].from as int] < dist@[x]
                        } by {
                        if x != v as int {
                            assert(before[x]);
                            let w = edges[pbefore[x] as int].from as int;
                            assert(before[w]);
                            if w == v as int {
                                assert(false);
                            }
                        }
                    }
                    assert forall|i: int, e: int|
                        0 <= i < head && 0 <= e < edges.len() && (#[trigger] edges[e]).from == #[trigger] queue@[i]
                            && rem@[e] > 0 implies visited@[edges[e].to as int] by {
                        assert(queue@[i] == qbefore[i]);
                    }
                }
            }
            j = j + 1;
        }
        proof {
            lemma_count_bound(visited@);
            assert forall|i: int, e: int|
                0 <= i < head + 1 && 0 <= e < edges.len() && (#[trigger] edges[e]).from == #[trigger] queue@[i]
                    && rem@[e] > 0 implies visited@[edges[e].to as int] by {
                if i == head as int {
                    assert(edges[e].from == u);
                }
            }
        }
        head = head + 1;
    }
    if !visited[t] {
        proof {
            assert forall|e: int| 0 <= e < edges.len() && visited@[(#[trigger] edges[e]).from as int] && rem@[e] > 0 implies visited@[edges[e].to as int] by {
                let a = edges[e].from as int;
                assert(a < n);
                let i = choose|i: int| 0 <= i < queue@.len() && queue@[i] == a;
                assert(edges[e].from == queue@[i]);
            }
            assert(positive_closed(edges, rem@, visited@));
            assert forall|p: Seq<usize>| is_path(edges, p, s as int, t as int) implies !#[trigger] all_positive(rem@, p) by {
                if all_positive(rem@, p) {
                    lemma_closed_path(edges, rem@, visited@, p, s as int, p.len() - 1);
                }
            }
        }
        return None;
    }
    let mut back: Vec<usize> = Vec::new();
    let mut cur: usize = t;
    while cur != s
        invariant
            net.wf(),
            edges == net.edges@,
            n == net.num_nodes,
            s < n,
            t < n,
            cur < n,
            visited@[cur as int],
            rem@.len() == edges.len(),
            visited@.len() == n,
            dist@.len() == n,
            pred@.len() == n,
            forall|v: int|
                0 <= v < n && v != s && #[trigger] visited@[v] ==> {
                    &&& pred@[v] < edges.len()
                    &&& edges[pred@[v] as int].to == v
                    &&& rem@[pred@[v] as int] > 0
                    &&& visited@[edges[pred@[v] as int].from as int]
                    &&& dist@[edges[pred@[v] as int].from as int] < dist@[v]
                },
            forall|i: int| 0 <= i < back@.len() ==> #[trigger] back@[i] < edges.len() && rem@[back@[i] as int] > 0,
            back@.len() == 0 ==> cur == t,
            back@.len() > 0 ==> edges[back@[0] as int].to == t && edges[back@.last() as int].from == cur,
            forall|i: int| 0 <= i < back@.len() - 1 ==> edges[#[trigger] back@[i] as int].from == edges[back@[i + 1] as int].to,
            forall|i: int| 0 <= i < back@.len() ==> dist@[cur as int] < dist@[edges[#[trigger] back@[i] as int].to as int],
            forall|i: int, k: int| 0 <= i < k < back@.len() ==> dist@[edges[back@[k] as int].to as int] < dist@[edges[back@[i] as int].to as int],
            forall|i: int| 0 <= i < back@.len() ==> edges[#[trigger] back@[i] as int].to < n,
        decreases dist@[cur as int],
    {
        let e = pred[cur];
        let ghost bb = back@;
        assert(edges[e as int].from < n);
        back.push(e);
        proof {
            assert forall|i: int| 0 <= i < back@.len() - 1 implies edges[#[trigger] back@[i] as int].from == edges[back@[i + 1] as int].to by {
                if i < bb.len() - 1 {
                    assert(back@[i] == bb[i] && back@[i + 1] == bb[i + 1]);
                } else {
                    assert(back@[i] == bb.last());
                }
            }
            assert forall|i: int| 0 <= i < back@.len() implies #[trigger] back@[i] < edges.len() && rem@[back@[i] as int] > 0 by {
                if i < bb.len() {
                    assert(back@[i] == bb[i]);
                }
            }
            assert forall|i: int| 0 <= i < back@.len() implies edges[#[trigger] back@[i] as int].to < n by {
                if i < bb.len() {
                    assert(back@[i] == bb[i]);
                }
            }
            let nxt = edges[e as int].from as int;
            assert forall|i: int| 0 <= i < back@.len() implies dist@[nxt] < dist@[edges[#[trigger] back@[i] as int].to as int] by {
                if i < bb.len() {
                    assert(back@[i] == bb[i]);
                }
            }
            assert forall|i: int, k: int| 0 <= i < k < back@.len() implies dist@[edges[back@[k] as int].to as int] < dist@[edges[back@[i] as int].to as int] by {
                assert(back@[i] == bb[i]);
                if k < bb.len() {
                    assert(back@[k] == bb[k]);
                }
            }
        }
        cur = net.edges[e].from;
    }
    let mut p: Vec<usize> = Vec::new();
    let mut m: usize = back.len();
    while m > 0
        invariant
            m <= back@.len(),
            p@.len() == back@.len() - m,
            forall|i: int| 0 <= i < p@.len() ==> p@[i] == back@[back@.len() - 1 - i],
        decreases m,
    {
        m = m - 1;
        p.push(back[m]);
    }
    proof {
        let l = back@.len();
        assert(l > 0);
        assert forall|i: int| 0 <= i < p@.len() implies #[trigger] p@[i] < edges.len() by {
            assert(back@[l - 1 - i] < edges.len());
        }
        assert forall|i: int| 0 <= i < p@.len() - 1 implies edges[#[trigger] p@[i] as int].to == edges[p@[i + 1] as int].from by {
            assert(edges[back@[l - 2 - i] as int].from == edges[back@[l - 1 - i] as int].to);
        }
        assert forall|i: int| 0 <= i < p@.len() implies rem@[#[trigger] p@[i] as int] > 0 by {
            assert(back@[l - 1 - i] < edges.len());
        }
        assert forall|i: int, k: int| 0 <= i < k < p@.len() implies p@[i] != p@[k] by {
            assert(dist@[edges[back@[l - 1 - i] as int].to as int] < dist@[edges[back@[l - 1 - k] as int].to as int]);
        }
    }
    Some(p)
}

/// Edge `e` occurs among the first `i` edges of `p`.
pub open spec fn uses(p: Seq<usize>, i: int, e: int) -> bool {
    exists|x: int| 0 <= x < i && p[x] as int == e
}

/// What the paths carry over edge `e`, counting each path that uses `e` once.
pub open spec fn path_usage(paths: Seq<FlowPath>, e: int) -> int
    decreases paths.len(),
{
    if paths.len() == 0 {
        0
    } else {
        path_usage(paths.drop_last(), e) + if uses(paths.last().edges@, paths.last().edges@.len() as int, e) {
            paths.last().amount as int
        } else {
            0
        }
    }
}

/// Sum of the amounts of the paths.
pub open spec fn amount_total(paths: Seq<FlowPath>) -> int
    decreases paths.len(),
{
    if paths.len() == 0 {
        0
    } else {
        amount_total(paths.drop_last()) + paths.last().amount
    }
}

/// Sum of the amounts of a sequence.
pub open spec fn total(s: Seq<u64>) -> int
    decreases s.len(),
{
    if s.len() == 0 {
        0
    } else {
        total(s.drop_last()) + s.last()
    }
}

proof fn lemma_total_update(s: Seq<u64>, i: int, x: u64)
    requires
        0 <= i < s.len(),
    ensures
        total(s.update(i, x)) == total(s) - s[i] + x,
    decreases s.len(),
{
    let u = s.update(i, x);
    if i == s.len() - 1 {
        assert(u.drop_last() =~= s.drop_last());
    } else {
        assert(u.drop_last() =~= s.drop_last().update(i, x));
        lemma_total_update(s.drop_last(), i, x);
    }
}

proof fn lemma_total_nonneg(s: Seq<u64>)
    ensures
        total(s) >= 0,
    decreases s.len(),
{
    if s.len() > 0 {
        lemma_total_nonneg(s.drop_last());
    }
}


/// Takes `a` off each edge of `p`.
fn take_path(rem: &mut Vec<u64>, p: &Vec<usize>, a: u64, Ghost(edges): Ghost<Seq<Edge>>, Ghost(s): Ghost<int>, Ghost(t): Ghost<int>)
    requires
        is_path(edges, p@, s, t),
        old(rem)@.len() == edges.len(),
        distinct_edges(p@),
        p@.len() > 0,
        forall|x: int| 0 <= x < p@.len() ==> #[trigger] p@[x] < old(rem)@.len(),
        forall|x: int| 0 <= x < p@.len() ==> a <= old(rem)@[#[trigger] p@[x] as int],
        a >= 1,
    ensures
        final(rem)@.len() == old(rem)@.len(),
        forall|e: int|
            0 <= e < old(rem)@.len() ==> #[trigger] final(rem)@[e] == old(rem)@[e] - if uses(
                p@,
                p@.len() as int,
                e,
            ) {
                a as int
            } else {
                0
            },
        total(final(rem)@) < total(old(rem)@),
        forall|v: int|
            #![trigger excess(edges, final(rem)@, v)]
            excess(edges, final(rem)@, v) == excess(edges, old(rem)@, v) - (if v == s {
                a as int
            } else {
                0
            }) + (if v == t {
                a as int
            } else {
                0
            }),
{
    let ghost before = rem@;
    let ghost mut taken: int = 0;
    let ghost mut cur: int = s;
    let mut i: usize = 0;
    while i < p.len()
        invariant
            0 <= i <= p@.len(),
            rem@.len() == before.len(),
            distinct_edges(p@),
            forall|x: int| 0 <= x < p@.len() ==> #[trigger] p@[x] < before.len(),
            forall|x: int| 0 <= x < p@.len() ==> a <= before[#[trigger] p@[x] as int],
            forall|e: int|
                0 <= e < before.len() ==> #[trigger] rem@[e] == before[e] - if uses(p@, i as int, e) {
                    a as int
                } else {
                    0
                },
            total(rem@) == total(before) - taken,
            i > 0 ==> taken >= a,
            taken >= 0,
            a >= 1,
            is_path(edges, p@, s, t),
            before.len() == edges.len(),
            i == 0 ==> cur == s,
            i > 0 ==> cur == edges[p@[i - 1] as int].to,
            forall|v: int|
                #![trigger excess(edges, rem@, v)]
                excess(edges, rem@, v) == excess(edges, before, v) - (if v == s {
                    a as int
                } else {
                    0
                }) + (if v == cur {
                    a as int
                } else {
                    0
                }),
        decreases p.len() - i,
    {
        let e = p[i];
        proof {
            if uses(p@, i as int, e as int) {
                let x = choose|x: int| 0 <= x < i && p@[x] as int == e as int;
                assert(p@[x] == p@[i as int]);
            }
            assert(rem@[e as int] == before[e as int]);
            lemma_total_update(rem@, e as int, (rem@[e as int] - a) as u64);
        }
        let ghost rb = rem@;
        proof {
            if i > 0 {
                assert(edges[p@[i - 1] as int].to == edges[p@[i as int] as int].from);
            }
            assert(edges[e as int].from == cur);
        }
        rem.set(e, rem[e] - a);
        proof {
            assert forall|v: int| #![trigger excess(edges, rem@, v)] excess(edges, rem@, v) == excess(edges, before, v) - (if v == s {
                a as int
            } else {
                0
            }) + (if v == edges[e as int].to as int {
                a as int
            } else {
                0
            }) by {
                lemma_update_sums(edges, rb, e as int, (rb[e as int] - a) as u64, v, edges.len());
                assert(rem@ == rb.update(e as int, (rb[e as int] - a) as u64));
                assert(excess(edges, rb, v) == excess(edges, before, v) - (if v == s {
                    a as int
                } else {
                    0
                }) + (if v == cur {
                    a as int
                } else {
                    0
                }));
            }
            cur = edges[e as int].to as int;
            taken = taken + a;
            assert forall|f: int| 0 <= f < before.len() implies #[trigger] rem@[f] == before[f] - if uses(
                p@,
                i + 1,
                f,
            ) {
                a as int
            } else {
                0
            } by {
                if f == e as int {
                    assert(uses(p@, i + 1, f));
                } else {
                    if uses(p@, i + 1, f) {
                        let x = choose|x: int| 0 <= x < i + 1 && p@[x] as int == f;
                        assert(x < i);
                        assert(uses(p@, i as int, f));
                    }
                    if uses(p@, i as int, f) {
                        let x = choose|x: int| 0 <= x < i && p@[x] as int == f;
                        assert(uses(p@, i + 1, f));
                    }
                }
            }
        }
        i = i + 1;
    }
}

/// Splits `flows` into source-to-sink paths: find a path over edges with flow
/// left, take its smallest remaining amount off each of its edges, and repeat
/// until no such path exists.
pub fn decompose_paths(net: &Network, source: usize, sink: usize, flows: &Vec<u64>) -> (r:
    Decomposition)
    requires
        net.wf(),
        source < net.num_nodes,
        sink < net.num_nodes,
        source != sink,
        flows@.len() == net.edges@.len(),
    ensures
        r.remaining@.len() == flows@.len(),
        forall|k: int|
            0 <= k < r.paths@.len() ==> is_path(
                net.edges@,
                (#[trigger] r.paths@[k]).edges@,
                source as int,
                sink as int,
            ) && r.paths@[k].amount >= 1,
        forall|e: int|
            0 <= e < flows@.len() ==> path_usage(r.paths@, e) + #[trigger] r.remaining@[e]
                == flows@[e],
        forall|p: Seq<usize>|
            is_path(net.edges@, p, source as int, sink as int) ==> !#[trigger] all_positive(
                r.remaining@,
                p,
            ),
        forall|v: int|
            v != source && v != sink ==> #[trigger] excess(net.edges@, r.remaining@, v) == excess(
                net.edges@,
                flows@,
                v,
            ),
        excess(net.edges@, flows@, source as int) == excess(net.edges@, r.remaining@, source as int)
            + amount_total(r.paths@),
{
    let ghost edges = net.edges@;
    let mut rem: Vec<u64> = Vec::new();
    let mut j: usize = 0;
    while j < flows.len()
        invariant
            j <= flows@.len(),
            rem@ == flows@.subrange(0, j as int),
        decreases flows.len() - j,
    {
        rem.push(flows[j]);
        proof {
            assert(rem@ =~= flows@.subrange(0, j + 1));
        }
        j = j + 1;
    }
    proof {
        assert(rem@ =~= flows@);
    }
    let mut paths: Vec<FlowPath> = Vec::new();
    let mut done: bool = false;
    while !done
        invariant
            net.wf(),
            edges == net.edges@,
            source < net.num_nodes,
            sink < net.num_nodes,
            source != sink,
            flows@.len() == edges.len(),
            rem@.len() == edges.len(),
            forall|k: int|
                0 <= k < paths@.len() ==> is_path(
                    edges,
                    (#[trigger] paths@[k]).edges@,
                    source as int,
                    sink as int,
                ) && paths@[k].amount >= 1,
            forall|e: int|
                0 <= e < flows@.len() ==> path_usage(paths@, e) + #[trigger] rem@[e] == flows@[e],
            forall|v: int|
                v != source && v != sink ==> #[trigger] excess(edges, rem@, v) == excess(edges, flows@, v),
            excess(edges, flows@, source as int) == excess(edges, rem@, source as int) + amount_total(paths@),
            done ==> forall|p: Seq<usize>|
                is_path(edges, p, source as int, sink as int) ==> !#[trigger] all_positive(rem@, p),
        decreases total(rem@) + if done {
            0int
        } else {
            1int
        },
    {
        proof {
            lemma_total_nonneg(rem@);
        }
        match find_walk(net, &rem, source, sink) {
            None => {
                done = true;
            },
            Some(p) => {
                let mut a: u64 = rem[p[0]];
                let mut i: usize = 1;
                while i < p.len()
                    invariant
                        1 <= i <= p@.len(),
                        rem@.len() == edges.len(),
                        forall|x: int| 0 <= x < p@.len() ==> #[trigger] p@[x] < edges.len(),
                        all_positive(rem@, p@),
                        a >= 1,
                        forall|x: int| 0 <= x < i ==> a <= rem@[#[trigger] p@[x] as int],
                    decreases p.len() - i,
                {
                    if rem[p[i]] < a {
                        a = rem[p[i]];
                    }
                    i = i + 1;
                }
                let ghost before = rem@;
                take_path(&mut rem, &p, a, Ghost(edges), Ghost(source as int), Ghost(sink as int));
                let ghost old_paths = paths@;
                paths.push(FlowPath { edges: p, amount: a });
                proof {
                    lemma_total_nonneg(rem@);
                    assert(total(rem@) < total(before));
                    assert(paths@.drop_last() =~= old_paths);
                    assert forall|v: int| v != source && v != sink implies #[trigger] excess(edges, rem@, v) == excess(edges, flows@, v) by {
                        assert(excess(edges, before, v) == excess(edges, flows@, v));
                        assert(excess(edges, rem@, v) == excess(edges, before, v));
                    }
                    assert(excess(edges, rem@, source as int) == excess(edges, before, source as int) - a);
                    assert forall|e: int| 0 <= e < flows@.len() implies path_usage(paths@, e)
                        + #[trigger] rem@[e] == flows@[e] by {
                        assert(path_usage(old_paths, e) + before[e] == flows@[e]);
                    }
                    assert forall|k: int| 0 <= k < paths@.len() implies is_path(
                        edges,
                        (#[trigger] paths@[k]).edges@,
                        source as int,
                        sink as int,
                    ) && paths@[k].amount >= 1 by {
                        if k < old_paths.len() {
                            assert(paths@[k] == old_paths[k]);
                        }
                    }
                }
            },
        }
    }
    Decomposition { paths, remaining: rem }
}

proof fn lemma_usage_covers(paths: Seq<FlowPath>, k: int, e: int)
    requires
        0 <= k < paths.len(),
        uses(paths[k].edges@, paths[k].edges@.len() as int, e),
    ensures
        path_usage(paths, e) >= paths[k].amount,
    decreases paths.len(),
{
    lemma_usage_nonneg(paths.drop_last(), e);
    if k < paths.len() - 1 {
        assert(paths.drop_last()[k] == paths[k]);
        lemma_usage_covers(paths.drop_last(), k, e);
    }
}

proof fn lemma_usage_nonneg(paths: Seq<FlowPath>, e: int)
    ensures
        path_usage(paths, e) >= 0,
    decreases paths.len(),
{
    if paths.len() > 0 {
        lemma_usage_nonneg(paths.drop_last(), e);
    }
}

/// Paths split off a flow that respects capacities run over edges of positive
/// capacity only, and where nothing of the flow remains, the amounts of the
/// paths through each edge add up to exactly its flow.
pub proof fn lemma_decomposition_sound(
    edges: Seq<Edge>,
    flows: Seq<u64>,
    paths: Seq<FlowPath>,
    remaining: Seq<u64>,
    s: int,
    t: int,
)
    requires
        respects_capacity(edges, flows),
        remaining.len() == flows.len(),
        forall|k: int|
            0 <= k < paths.len() ==> is_path(edges, (#[trigger] paths[k]).edges@, s, t)
                && paths[k].amount >= 1,
        forall|e: int| 0 <= e < flows.len() ==> path_usage(paths, e) + #[trigger] remaining[e] == flows[e],
    ensures
        forall|k: int, x: int|
            0 <= k < paths.len() && 0 <= x < paths[k].edges@.len() ==> edges[(
            #[trigger] paths[k].edges@[x]) as int].capacity > 0,
        (forall|e: int| 0 <= e < remaining.len() ==> #[trigger] remaining[e] == 0) ==> forall|e: int|
            0 <= e < flows.len() ==> #[trigger] path_usage(paths, e) == flows[e],
{
    assert forall|k: int, x: int|
        0 <= k < paths.len() && 0 <= x < paths[k].edges@.len() implies edges[(
        #[trigger] paths[k].edges@[x]) as int].capacity > 0 by {
        let e = paths[k].edges@[x] as int;
        assert(is_path(edges, paths[k].edges@, s, t));
        assert(e < edges.len());
        assert(uses(paths[k].edges@, paths[k].edges@.len() as int, e));
        lemma_usage_covers(paths, k, e);
        assert(remaining[e] >= 0);
        assert(flows[e] <= edges[e].capacity);
    }
    if forall|e: int| 0 <= e < remaining.len() ==> #[trigger] remaining[e] == 0 {
        assert forall|e: int| 0 <= e < flows.len() implies #[trigger] path_usage(paths, e) == flows[e] by {
            assert(remaining[e] == 0);
        }
    }
}

/// The edge runs source to item, item to recipient, or recipient to sink.
pub open spec fn layered(e: Edge, p: int, r: int) -> bool {
    ||| (e.from == 0 && 2 <= e.to < 2 + p)
    ||| (2 <= e.from < 2 + p && 2 + p <= e.to < 2 + p + r)
    ||| (2 + p <= e.from < 2 + p + r && e.to == 1)
}

pub open spec fn all_layered(s: Seq<Edge>, p: int, r: int) -> bool {
    forall|x: int| 0 <= x < s.len() ==> layered(#[trigger] s[x], p, r)
}

proof fn lemma_item_edges_layered(items: Seq<Item>, recs: Seq<Recipient>, i: int, k: nat, ranked: bool)
    requires
        0 <= i < items.len(),
        k <= recs.len(),
        items.len() + recs.len() + 2 <= usize::MAX,
    ensures
        all_layered(item_edges(items, recs, i, k, ranked), items.len() as int, recs.len() as int),
    decreases k,
{
    if k > 0 {
        lemma_item_edges_layered(items, recs, i, (k - 1) as nat, ranked);
        let a = item_edges(items, recs, i, (k - 1) as nat, ranked);
        let full = item_edges(items, recs, i, k, ranked);
        assert((item_node(i) as usize) as int == item_node(i));
        assert((recipient_node(items, k - 1) as usize) as int == recipient_node(items, k - 1));
        assert forall|x: int| 0 <= x < full.len() implies layered(#[trigger] full[x], items.len() as int, recs.len() as int) by {
            if x < a.len() {
                assert(full[x] == a[x]);
            }
        }
    }
}

proof fn lemma_supply_edges_layered(items: Seq<Item>, recs: Seq<Recipient>, m: nat, ranked: bool)
    requires
        m <= items.len(),
        items.len() + recs.len() + 2 <= usize::MAX,
    ensures
        all_layered(supply_edges(items, recs, m, ranked), items.len() as int, recs.len() as int),
    decreases m,
{
    if m > 0 {
        lemma_supply_edges_layered(items, recs, (m - 1) as nat, ranked);
        lemma_item_edges_layered(items, recs, m - 1, recs.len(), ranked);
        let a = supply_edges(items, recs, (m - 1) as nat, ranked);
        let c = item_edges(items, recs, m - 1, recs.len(), ranked);
        let full = supply_edges(items, recs, m, ranked);
        assert((item_node(m - 1) as usize) as int == item_node(m - 1));
        assert forall|x: int| 0 <= x < full.len() implies layered(#[trigger] full[x], items.len() as int, recs.len() as int) by {
            if x < a.len() {
                assert(full[x] == a[x]);
            } else if x > a.len() {
                assert(full[x] == c[x - a.len() - 1]);
            }
        }
    }
}

proof fn lemma_demand_edges_layered(items: Seq<Item>, recs: Seq<Recipient>, m: nat)
    requires
        m <= recs.len(),
        items.len() + recs.len() + 2 <= usize::MAX,
    ensures
        all_layered(demand_edges(items, recs, m), items.len() as int, recs.len() as int),
    decreases m,
{
    if m > 0 {
        lemma_demand_edges_layered(items, recs, (m - 1) as nat);
        let a = demand_edges(items, recs, (m - 1) as nat);
        let full = demand_edges(items, recs, m);
        assert((recipient_node(items, m - 1) as usize) as int == recipient_node(items, m - 1));
        assert forall|x: int| 0 <= x < full.len() implies layered(#[trigger] full[x], items.len() as int, recs.len() as int) by {
            if x < a.len() {
                assert(full[x] == a[x]);
            }
        }
    }
}

proof fn lemma_allocation_layered(items: Seq<Item>, recs: Seq<Recipient>, ranked: bool)
    requires
        items.len() + recs.len() + 2 <= usize::MAX,
    ensures
        all_layered(allocation_edges(items, recs, ranked), items.len() as int, recs.len() as int),
{
    lemma_supply_edges_layered(items, recs, items.len(), ranked);
    lemma_demand_edges_layered(items, recs, recs.len());
    let a = supply_edges(items, recs, items.len(), ranked);
    let b = demand_edges(items, recs, recs.len());
    let full = allocation_edges(items, recs, ranked);
    assert forall|x: int| 0 <= x < full.len() implies layered(#[trigger] full[x], items.len() as int, recs.len() as int) by {
        if x < a.len() {
            assert(full[x] == a[x]);
        } else {
            assert(full[x] == b[x - a.len()]);
        }
    }
}

proof fn lemma_in_witness(edges: Seq<Edge>, f: Seq<u64>, v: int, k: nat) -> (e: int)
    requires
        in_flow(edges, f, v, k) > 0,
    ensures
        0 <= e < k,
        edges[e].to == v,
        f[e] > 0,
    decreases k,
{
    if in_flow(edges, f, v, (k - 1) as nat) > 0 {
        lemma_in_witness(edges, f, v, (k - 1) as nat)
    } else {
        (k - 1) as int
    }
}

proof fn lemma_out_witness(edges: Seq<Edge>, f: Seq<u64>, v: int, k: nat) -> (e: int)
    requires
        out_flow(edges, f, v, k) > 0,
    ensures
        0 <= e < k,
        edges[e].from == v,
        f[e] > 0,
    decreases k,
{
    if out_flow(edges, f, v, (k - 1) as nat) > 0 {
        lemma_out_witness(edges, f, v, (k - 1) as nat)
    } else {
        (k - 1) as int
    }
}

proof fn lemma_sums_cover(edges: Seq<Edge>, f: Seq<u64>, e: int, k: nat)
    requires
        0 <= e < k,
    ensures
        out_flow(edges, f, edges[e].from as int, k) >= f[e],
        in_flow(edges, f, edges[e].to as int, k) >= f[e],
    decreases k,
{
    if k - 1 > e {
        lemma_sums_cover(edges, f, e, (k - 1) as nat);
    } else {
        lemma_sums_nonneg(edges, f, edges[e].from as int, (k - 1) as nat);
        lemma_sums_nonneg(edges, f, edges[e].to as int, (k - 1) as nat);
    }
}

proof fn lemma_sums_nonneg(edges: Seq<Edge>, f: Seq<u64>, v: int, k: nat)
    ensures
        out_flow(edges, f, v, k) >= 0,
        in_flow(edges, f, v, k) >= 0,
    decreases k,
{
    if k > 0 {
        lemma_sums_nonneg(edges, f, v, (k - 1) as nat);
    }
}

/// A positive remainder on an edge from an item to a recipient extends, over
/// the conserved remainder, to a positive source-to-sink path.
proof fn lemma_middle_edge_extends(edges: Seq<Edge>, rem: Seq<u64>, p: int, r: int, e2: int) -> (q: Seq<usize>)
    requires
        all_layered(edges, p, r),
        rem.len() == edges.len(),
        edges.len() <= usize::MAX,
        0 <= e2 < edges.len(),
        rem[e2] > 0,
        2 <= edges[e2].from < 2 + p,
        2 + p <= edges[e2].to < 2 + p + r,
        forall|v: int| 2 <= v < 2 + p + r ==> #[trigger] excess(edges, rem, v) == 0,
    ensures
        is_path(edges, q, 0, 1),
        all_positive(rem, q),
{
    let u = edges[e2].from as int;
    let w = edges[e2].to as int;
    lemma_sums_cover(edges, rem, e2, edges.len());
    assert(excess(edges, rem, u) == 0);
    assert(excess(edges, rem, w) == 0);
    let e1 = lemma_in_witness(edges, rem, u, edges.len());
    let e3 = lemma_out_witness(edges, rem, w, edges.len());
    assert(layered(edges[e1], p, r));
    assert(layered(edges[e3], p, r));
    let q: Seq<usize> = seq![e1 as usize, e2 as usize, e3 as usize];
    assert(q[0] as int == e1 && q[1] as int == e2 && q[2] as int == e3);
    assert(edges[e1].to == u && edges[e3].from == w);
    assert(edges[e1].from == 0);
    assert(edges[e3].to == 1);
    assert(q[0] != q[1] && q[1] != q[2] && q[0] != q[2]);
    assert(all_positive(rem, q));
    assert(is_path(edges, q, 0, 1));
    q
}

/// On an allocation network, a remainder that is conserved wherever the flow is
/// and leaves no positive source-to-sink path is zero on every edge: paths
/// taken from a conserved flow there reproduce it exactly.
pub proof fn lemma_allocation_decomposition_exact(
    items: Seq<Item>,
    recs: Seq<Recipient>,
    ranked: bool,
    flows: Seq<u64>,
    rem: Seq<u64>,
)
    requires
        items.len() + recs.len() + 2 <= usize::MAX,
        allocation_edges(items, recs, ranked).len() <= usize::MAX,
        flows.len() == allocation_edges(items, recs, ranked).len(),
        rem.len() == flows.len(),
        conserves(
            allocation_edges(items, recs, ranked),
            flows,
            (items.len() + recs.len() + 2) as nat,
            0,
            1,
        ),
        forall|v: int|
            v != 0 && v != 1 ==> #[trigger] excess(allocation_edges(items, recs, ranked), rem, v)
                == excess(allocation_edges(items, recs, ranked), flows, v),
        forall|q: Seq<usize>|
            is_path(allocation_edges(items, recs, ranked), q, 0, 1) ==> !#[trigger] all_positive(
                rem,
                q,
            ),
    ensures
        forall|e: int| 0 <= e < rem.len() ==> #[trigger] rem[e] == 0,
{
    let edges = allocation_edges(items, recs, ranked);
    let p = items.len() as int;
    let r = recs.len() as int;
    lemma_allocation_layered(items, recs, ranked);
    assert forall|v: int| 2 <= v < 2 + p + r implies #[trigger] excess(edges, rem, v) == 0 by {
        assert(outbound(edges, flows, v) == inbound(edges, flows, v));
        assert(excess(edges, rem, v) == excess(edges, flows, v));
    }
    assert forall|e: int| 0 <= e < rem.len() implies #[trigger] rem[e] == 0 by {
        if rem[e] > 0 {
            assert(layered(edges[e], p, r));
            lemma_sums_cover(edges, rem, e, edges.len());
            if edges[e].from == 0 {
                let u = edges[e].to as int;
                assert(excess(edges, rem, u) == 0);
                let e2 = lemma_out_witness(edges, rem, u, edges.len());
                assert(layered(edges[e2], p, r));
                let q = lemma_middle_edge_extends(edges, rem, p, r, e2);
            } else if edges[e].to == 1 {
                let w = edges[e].from as int;
                assert(excess(edges, rem, w) == 0);
                let e2 = lemma_in_witness(edges, rem, w, edges.len());
                assert(layered(edges[e2], p, r));
                let q = lemma_middle_edge_extends(edges, rem, p, r, e2);
            } else {
                let q = lemma_middle_edge_extends(edges, rem, p, r, e);
            }
        }
    }
}

/// An allocation and its flow split into source-to-sink paths.
pub struct PathAllocation {
    pub allocation: Allocation,
    pub paths: Vec<FlowPath>,
}

/// Allocates as `allocate` does and splits the flow into paths from the source
/// through an item and a recipient to the sink; the paths carry the whole flow.
pub fn allocate_paths(items: &Vec<Item>, recipients: &Vec<Recipient>) -> (r: Result<PathAllocation, FlowError>)
    requires
        items@.len() + recipients@.len() + 2 <= usize::MAX,
    ensures
        (duplicate_items(items@) || duplicate_recipients(recipients@)) ==> r matches Err(
            FlowError::DuplicateName,
        ),
        (!duplicate_items(items@) && !duplicate_recipients(recipients@) && unknown_reference(
            items@,
            recipients@,
        )) ==> r matches Err(FlowError::UnknownReference),
        (!duplicate_items(items@) && !duplicate_recipients(recipients@) && !unknown_reference(
            items@,
            recipients@,
        ) && within_limits(items@, recipients@)) ==> r is Ok,
        r matches Ok(pa) ==> {
            let edges = pa.allocation.network.network.edges@;
            &&& edges == allocation_edges(items@, recipients@, false)
            &&& forall|k: int|
                0 <= k < pa.paths@.len() ==> is_path(edges, (#[trigger] pa.paths@[k]).edges@, 0, 1)
                    && pa.paths@[k].amount >= 1
            &&& forall|e: int|
                0 <= e < edges.len() ==> #[trigger] path_usage(pa.paths@, e)
                    == pa.allocation.solution.flows@[e]
            &&& amount_total(pa.paths@) == pa.allocation.solution.value
        },
{
    let a = allocate(items, recipients)?;
    let ne = a.network.network.edges.len();
    let d = decompose_paths(&a.network.network, 0, 1, &a.solution.flows);
    proof {
        let edges = a.network.network.edges@;
        assert(ne == edges.len());
        lemma_allocation_decomposition_exact(items@, recipients@, false, a.solution.flows@, d.remaining@);
        lemma_zero_sums(edges, d.remaining@, 0, edges.len());
        assert forall|e: int| 0 <= e < edges.len() implies #[trigger] path_usage(d.paths@, e)
            == a.solution.flows@[e] by {
            assert(d.remaining@[e] == 0);
        }
    }
    Ok(PathAllocation { allocation: a, paths: d.paths })
}

} // verus!
