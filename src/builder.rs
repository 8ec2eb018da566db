use crate::flow::{conserves, in_flow, inbound, out_flow, outbound, respects_capacity};
use crate::network::{edges_within, Edge, FlowError, Network};
use vstd::prelude::*;

verus! {

/// An item type in stock.
pub struct Item {
    pub name: String,
    pub quantity: u64,
}

/// A recipient: the items it accepts, and how many units it may receive in all.
pub struct Recipient {
    pub name: String,
    pub wishlist: Vec<String>,
    pub max_allotment: u64,
}

impl Item {
    /// An item type with the given name and quantity.
    pub fn new(name: String, quantity: u64) -> (r: Item)
        ensures
            r.name == name,
            r.quantity == quantity,
    {
        Item { name, quantity }
    }
}

impl Recipient {
    /// A recipient with the given name, wishlist and allotment.
    pub fn new(name: String, wishlist: Vec<String>, max_allotment: u64) -> (r: Recipient)
        ensures
            r.name == name,
            r.wishlist == wishlist,
            r.max_allotment == max_allotment,
    {
        Recipient { name, wishlist, max_allotment }
    }
}

/// What a node of an allocation network stands for.
#[derive(Debug)]
pub enum NodeLabel {
    Source,
    Sink,
    Labeled(String),
}

/// An allocation network with its terminals and the label of each node.
pub struct AllocationNetwork {
    pub network: Network,
    pub source: usize,
    pub sink: usize,
    pub labels: Vec<NodeLabel>,
}

/// Node of the `i`-th item.
pub open spec fn item_node(i: int) -> int {
    2 + i
}

/// Node of the `k`-th recipient.
pub open spec fn recipient_node(items: Seq<Item>, k: int) -> int {
    2 + items.len() + k
}

/// The recipient accepts the item called `name`.
pub open spec fn wants(r: Recipient, name: Seq<char>) -> bool {
    exists|j: int| 0 <= j < r.wishlist@.len() && (#[trigger] r.wishlist@[j])@ == name
}

/// Position of the first entry of the recipient's wishlist that names `name`.
pub open spec fn rank_of(r: Recipient, name: Seq<char>) -> int {
    choose|j: int|
        0 <= j < r.wishlist@.len() && r.wishlist@[j]@ == name && forall|x: int|
            0 <= x < j ==> (#[trigger] r.wishlist@[x])@ != name
}

/// Cost of the edge from an item to a recipient that accepts it: its rank in
/// the wishlist where `ranked`, else nothing.
pub open spec fn preference_cost(r: Recipient, name: Seq<char>, ranked: bool) -> i64 {
    if ranked {
        rank_of(r, name) as i64
    } else {
        0
    }
}

/// Edges from item `i` to the first `k` recipients that accept it.
pub open spec fn item_edges(items: Seq<Item>, recs: Seq<Recipient>, i: int, k: nat, ranked: bool) -> Seq<Edge>
    decreases k,
{
    if k == 0 {
        Seq::empty()
    } else {
        item_edges(items, recs, i, (k - 1) as nat, ranked) + if wants(recs[k - 1], items[i].name@) {
            seq![
                Edge {
                    from: item_node(i) as usize,
                    to: recipient_node(items, k - 1) as usize,
                    capacity: 1,
                    cost: preference_cost(recs[k - 1], items[i].name@, ranked),
                },
            ]
        } else {
            Seq::empty()
        }
    }
}

/// For each of the first `m` items: the edge from the source, then its edges to
/// the recipients that accept it.
pub open spec fn supply_edges(items: Seq<Item>, recs: Seq<Recipient>, m: nat, ranked: bool) -> Seq<Edge>
    decreases m,
{
    if m == 0 {
        Seq::empty()
    } else {
        supply_edges(items, recs, (m - 1) as nat, ranked) + seq![
            Edge {
                from: 0,
                to: item_node(m - 1) as usize,
                capacity: items[m - 1].quantity,
                cost: 0,
            },
        ] + item_edges(items, recs, m - 1, recs.len(), ranked)
    }
}

/// The edges from the first `m` recipients to the sink.
pub open spec fn demand_edges(items: Seq<Item>, recs: Seq<Recipient>, m: nat) -> Seq<Edge>
    decreases m,
{
    if m == 0 {
        Seq::empty()
    } else {
        demand_edges(items, recs, (m - 1) as nat) + seq![
            Edge {
                from: recipient_node(items, m - 1) as usize,
                to: 1,
                capacity: recs[m - 1].max_allotment,
                cost: 0,
            },
        ]
    }
}

/// All edges of the allocation network, in the order they are added.
pub open spec fn allocation_edges(items: Seq<Item>, recs: Seq<Recipient>, ranked: bool) -> Seq<Edge> {
    supply_edges(items, recs, items.len(), ranked) + demand_edges(items, recs, recs.len())
}

/// Two items share a name.
pub open spec fn duplicate_items(items: Seq<Item>) -> bool {
    exists|i: int, j: int|
        0 <= i < j < items.len() && (#[trigger] items[i]).name@ == (#[trigger] items[j]).name@
}

/// Two recipients share a name.
pub open spec fn duplicate_recipients(recs: Seq<Recipient>) -> bool {
    exists|i: int, j: int|
        0 <= i < j < recs.len() && (#[trigger] recs[i]).name@ == (#[trigger] recs[j]).name@
}

/// Some item is called `name`.
pub open spec fn declared(items: Seq<Item>, name: Seq<char>) -> bool {
    exists|i: int| 0 <= i < items.len() && (#[trigger] items[i]).name@ == name
}

/// Some wishlist names an item that is not declared.
pub open spec fn unknown_reference(items: Seq<Item>, recs: Seq<Recipient>) -> bool {
    exists|k: int, j: int|
        0 <= k < recs.len() && 0 <= j < recs[k].wishlist@.len() && !declared(
            items,
            (#[trigger] recs[k].wishlist@[j])@,
        )
}

/// The label of node `v`.
pub open spec fn label_matches(items: Seq<Item>, recs: Seq<Recipient>, v: int, l: NodeLabel) -> bool {
    if v == 0 {
        l is Source
    } else if v == 1 {
        l is Sink
    } else if v < 2 + items.len() {
        l == NodeLabel::Labeled(items[v - 2].name)
    } else {
        l == NodeLabel::Labeled(recs[v - 2 - items.len()].name)
    }
}

/// Whether two items share a name.
fn has_duplicate_items(items: &Vec<Item>) -> (r: bool)
    ensures
        r == duplicate_items(items@),
{
    let mut i: usize = 0;
    while i < items.len()
        invariant
            i <= items@.len(),
            forall|a: int, b: int|
                0 <= a < i && a < b < items@.len() ==> (#[trigger] items@[a]).name@ != (
                #[trigger] items@[b]).name@,
        decreases items.len() - i,
    {
        let mut j: usize = i + 1;
        while j < items.len()
            invariant
                i < items@.len(),
                i + 1 <= j <= items@.len(),
                forall|a: int, b: int|
                    0 <= a < i && a < b < items@.len() ==> (#[trigger] items@[a]).name@ != (
                    #[trigger] items@[b]).name@,
                forall|b: int| i < b < j ==> items@[i as int].name@ != (#[trigger] items@[b]).name@,
            decreases items.len() - j,
        {
            if items[i].name == items[j].name {
                return true;
            }
            j = j + 1;
        }
        i = i + 1;
    }
    false
}

/// Whether two recipients share a name.
fn has_duplicate_recipients(recs: &Vec<Recipient>) -> (r: bool)
    ensures
        r == duplicate_recipients(recs@),
{
    let mut i: usize = 0;
    while i < recs.len()
        invariant
            i <= recs@.len(),
            forall|a: int, b: int|
                0 <= a < i && a < b < recs@.len() ==> (#[trigger] recs@[a]).name@ != (
                #[trigger] recs@[b]).name@,
        decreases recs.len() - i,
    {
        let mut j: usize = i + 1;
        while j < recs.len()
            invariant
                i < recs@.len(),
                i + 1 <= j <= recs@.len(),
                forall|a: int, b: int|
                    0 <= a < i && a < b < recs@.len() ==> (#[trigger] recs@[a]).name@ != (
                    #[trigger] recs@[b]).name@,
                forall|b: int| i < b < j ==> recs@[i as int].name@ != (#[trigger] recs@[b]).name@,
            decreases recs.len() - j,
        {
            if recs[i].name == recs[j].name {
                return true;
            }
            j = j + 1;
        }
        i = i + 1;
    }
    false
}

/// Whether the recipient accepts the item called `name`.
pub fn accepts(r: &Recipient, name: &String) -> (b: bool)
    ensures
        b == wants(*r, name@),
{
    let mut j: usize = 0;
    while j < r.wishlist.len()
        invariant
            j <= r.wishlist@.len(),
            forall|x: int| 0 <= x < j ==> (#[trigger] r.wishlist@[x])@ != name@,
        decreases r.wishlist.len() - j,
    {
        if r.wishlist[j] == *name {
            return true;
        }
        j = j + 1;
    }
    false
}

/// Position of the first wishlist entry naming `name`, if any.
pub fn wish_rank(r: &Recipient, name: &String) -> (res: Option<usize>)
    ensures
        res is Some <==> wants(*r, name@),
        res matches Some(j) ==> j == rank_of(*r, name@),
{
    let mut j: usize = 0;
    while j < r.wishlist.len()
        invariant
            j <= r.wishlist@.len(),
            forall|x: int| 0 <= x < j ==> (#[trigger] r.wishlist@[x])@ != name@,
        decreases r.wishlist.len() - j,
    {
        if r.wishlist[j] == *name {
            proof {
                let k = rank_of(*r, name@);
                assert(0 <= k < r.wishlist@.len() && r.wishlist@[k]@ == name@ && forall|x: int|
                    0 <= x < k ==> (#[trigger] r.wishlist@[x])@ != name@);
                if k < j {
                    assert(r.wishlist@[k]@ != name@);
                }
                if k > j {
                    assert(r.wishlist@[j as int]@ != name@);
                }
            }
            return Some(j);
        }
        j = j + 1;
    }
    None
}

/// Whether an item called `name` is declared.
fn is_declared(items: &Vec<Item>, name: &String) -> (b: bool)
    ensures
        b == declared(items@, name@),
{
    let mut i: usize = 0;
    while i < items.len()
        invariant
            i <= items@.len(),
            forall|x: int| 0 <= x < i ==> (#[trigger] items@[x]).name@ != name@,
        decreases items.len() - i,
    {
        if items[i].name == *name {
            return true;
        }
        i = i + 1;
    }
    false
}

/// Whether some wishlist names an undeclared item.
fn has_unknown_reference(items: &Vec<Item>, recs: &Vec<Recipient>) -> (r: bool)
    ensures
        r == unknown_reference(items@, recs@),
{
    let mut k: usize = 0;
    while k < recs.len()
        invariant
            k <= recs@.len(),
            forall|a: int, j: int|
                0 <= a < k && 0 <= j < recs@[a].wishlist@.len() ==> declared(
                    items@,
                    (#[trigger] recs@[a].wishlist@[j])@,
                ),
        decreases recs.len() - k,
    {
        let r = &recs[k];
        let mut j: usize = 0;
        while j < r.wishlist.len()
            invariant
                k < recs@.len(),
                *r == recs@[k as int],
                j <= r.wishlist@.len(),
                forall|a: int, x: int|
                    0 <= a < k && 0 <= x < recs@[a].wishlist@.len() ==> declared(
                        items@,
                        (#[trigger] recs@[a].wishlist@[x])@,
                    ),
                forall|x: int| 0 <= x < j ==> declared(items@, (#[trigger] r.wishlist@[x])@),
            decreases r.wishlist.len() - j,
        {
            if !is_declared(items, &r.wishlist[j]) {
                return true;
            }
            j = j + 1;
        }
        k = k + 1;
    }
    false
}

proof fn lemma_push_within(s: Seq<Edge>, x: Edge, n: nat)
    requires
        edges_within(s, n),
        x.from < n,
        x.to < n,
    ensures
        edges_within(s.push(x), n),
{
    assert forall|e: int| 0 <= e < s.push(x).len() implies (#[trigger] s.push(x)[e]).from < n
        && s.push(x)[e].to < n by {
        if e < s.len() {
            assert(s.push(x)[e] == s[e]);
        }
    }
}

/// Builds the allocation network: source, sink, one node per item, then one
/// per recipient. For each item in turn come the edge from the source (its
/// quantity) and an edge of capacity one to each recipient that accepts it;
/// then each recipient's edge to the sink (its allotment). Every cost is zero.
pub fn build_network(items: &Vec<Item>, recipients: &Vec<Recipient>) -> (r: Result<
    AllocationNetwork,
    FlowError,
>)
    requires
        items@.len() + recipients@.len() + 2 <= usize::MAX,
    ensures
        (duplicate_items(items@) || duplicate_recipients(recipients@)) ==> r matches Err(
            FlowError::DuplicateName,
        ),
        (!duplicate_items(items@) && !duplicate_recipients(recipients@) && unknown_reference(
            items@,
            recipients@,
        )) ==> r matches Err(FlowError::UnknownReference),
        (!duplicate_items(items@) && !duplicate_recipients(recipients@) && !unknown_reference(
            items@,
            recipients@,
        )) ==> r is Ok,
        r matches Ok(a) ==> {
            &&& a.network.num_nodes == items@.len() + recipients@.len() + 2
            &&& a.network.edges@ == allocation_edges(items@, recipients@, false)
            &&& a.network.wf()
            &&& a.source == 0
            &&& a.sink == 1
            &&& a.labels@.len() == a.network.num_nodes
            &&& forall|v: int|
                0 <= v < a.labels@.len() ==> label_matches(
                    items@,
                    recipients@,
                    v,
                    #[trigger] a.labels@[v],
                )
        },
{
    build_with(items, recipients, false)
}

/// Builds the allocation network as `build_network` does, but with each edge
/// from an item to a recipient costing the item's position in the wishlist, so
/// that a cheapest allocation favours earlier wishes.
pub fn build_ranked_network(items: &Vec<Item>, recipients: &Vec<Recipient>) -> (r: Result<
    AllocationNetwork,
    FlowError,
>)
    requires
        items@.len() + recipients@.len() + 2 <= usize::MAX,
    ensures
        (duplicate_items(items@) || duplicate_recipients(recipients@)) ==> r matches Err(
            FlowError::DuplicateName,
        ),
        (!duplicate_items(items@) && !duplicate_recipients(recipients@) && unknown_reference(
            items@,
            recipients@,
        )) ==> r matches Err(FlowError::UnknownReference),
        (!duplicate_items(items@) && !duplicate_recipients(recipients@) && !unknown_reference(
            items@,
            recipients@,
        )) ==> r is Ok,
        r matches Ok(a) ==> {
            &&& a.network.num_nodes == items@.len() + recipients@.len() + 2
            &&& a.network.edges@ == allocation_edges(items@, recipients@, true)
            &&& a.network.wf()
            &&& a.source == 0
            &&& a.sink == 1
            &&& a.labels@.len() == a.network.num_nodes
            &&& forall|v: int|
                0 <= v < a.labels@.len() ==> label_matches(
                    items@,
                    recipients@,
                    v,
                    #[trigger] a.labels@[v],
                )
        },
{
    build_with(items, recipients, true)
}

/// Builds the allocation network, with ranked or zero preference costs.
fn build_with(items: &Vec<Item>, recipients: &Vec<Recipient>, ranked: bool) -> (r: Result<
    AllocationNetwork,
    FlowError,
>)
    requires
        items@.len() + recipients@.len() + 2 <= usize::MAX,
    ensures
        (duplicate_items(items@) || duplicate_recipients(recipients@)) ==> r matches Err(
            FlowError::DuplicateName,
        ),
        (!duplicate_items(items@) && !duplicate_recipients(recipients@) && unknown_reference(
            items@,
            recipients@,
        )) ==> r matches Err(FlowError::UnknownReference),
        (!duplicate_items(items@) && !duplicate_recipients(recipients@) && !unknown_reference(
            items@,
            recipients@,
        )) ==> r is Ok,
        r matches Ok(a) ==> {
            &&& a.network.num_nodes == items@.len() + recipients@.len() + 2
            &&& a.network.edges@ == allocation_edges(items@, recipients@, ranked)
            &&& a.network.wf()
            &&& a.source == 0
            &&& a.sink == 1
            &&& a.labels@.len() == a.network.num_nodes
            &&& forall|v: int|
                0 <= v < a.labels@.len() ==> label_matches(
                    items@,
                    recipients@,
                    v,
                    #[trigger] a.labels@[v],
                )
        },
{
    if has_duplicate_items(items) || has_duplicate_recipients(recipients) {
        return Err(FlowError::DuplicateName);
    }
    if has_unknown_reference(items, recipients) {
        return Err(FlowError::UnknownReference);
    }
    let p = items.len();
    let q = recipients.len();
    let n = p + q + 2;
    let ghost its = items@;
    let ghost rs = recipients@;
    let mut edges: Vec<Edge> = Vec::new();
    let mut i: usize = 0;
    while i < p
        invariant
            p == its.len(),
            q == rs.len(),
            its == items@,
            rs == recipients@,
            n == p + q + 2,
            i <= p,
            edges@ == supply_edges(its, rs, i as nat, ranked),
            edges_within(edges@, n as nat),
        decreases p - i,
    {
        let src_edge = Edge { from: 0, to: 2 + i, capacity: items[i].quantity, cost: 0 };
        proof {
            lemma_push_within(edges@, src_edge, n as nat);
        }
        edges.push(src_edge);
        let ghost base = edges@;
        let mut k: usize = 0;
        while k < q
            invariant
                p == its.len(),
                q == rs.len(),
                its == items@,
                rs == recipients@,
                n == p + q + 2,
                i < p,
                k <= q,
                edges@ == base + item_edges(its, rs, i as int, k as nat, ranked),
                edges_within(edges@, n as nat),
            decreases q - k,
        {
            if let Some(rank) = wish_rank(&recipients[k], &items[i].name) {
                let cost: i64 = if ranked {
                    rank as i64
                } else {
                    0
                };
                let e = Edge { from: 2 + i, to: 2 + p + k, capacity: 1, cost };
                proof {
                    lemma_push_within(edges@, e, n as nat);
                }
                edges.push(e);
            }
            proof {
                assert(edges@ =~= base + item_edges(its, rs, i as int, (k + 1) as nat, ranked));
            }
            k = k + 1;
        }
        proof {
            assert(edges@ =~= supply_edges(its, rs, (i + 1) as nat, ranked));
        }
        i = i + 1;
    }
    let ghost mid = edges@;
    let mut k: usize = 0;
    while k < q
        invariant
            p == its.len(),
            q == rs.len(),
            its == items@,
            rs == recipients@,
            n == p + q + 2,
            k <= q,
            mid == supply_edges(its, rs, p as nat, ranked),
            edges@ == mid + demand_edges(its, rs, k as nat),
            edges_within(edges@, n as nat),
        decreases q - k,
    {
        let e = Edge { from: 2 + p + k, to: 1, capacity: recipients[k].max_allotment, cost: 0 };
        proof {
            lemma_push_within(edges@, e, n as nat);
        }
        edges.push(e);
        proof {
            assert(edges@ =~= mid + demand_edges(its, rs, (k + 1) as nat));
        }
        k = k + 1;
    }
    let mut labels: Vec<NodeLabel> = Vec::new();
    labels.push(NodeLabel::Source);
    labels.push(NodeLabel::Sink);
    let mut i: usize = 0;
    while i < p
        invariant
            p == its.len(),
            its == items@,
            rs == recipients@,
            i <= p,
            labels@.len() == 2 + i,
            forall|v: int| 0 <= v < labels@.len() ==> label_matches(its, rs, v, #[trigger] labels@[v]),
        decreases p - i,
    {
        labels.push(NodeLabel::Labeled(items[i].name.clone()));
        i = i + 1;
    }
    let mut k: usize = 0;
    while k < q
        invariant
            p == its.len(),
            q == rs.len(),
            its == items@,
            rs == recipients@,
            k <= q,
            labels@.len() == 2 + p + k,
            forall|v: int| 0 <= v < labels@.len() ==> label_matches(its, rs, v, #[trigger] labels@[v]),
        decreases q - k,
    {
        labels.push(NodeLabel::Labeled(recipients[k].name.clone()));
        k = k + 1;
    }
    Ok(AllocationNetwork { network: Network { num_nodes: n, edges }, source: 0, sink: 1, labels })
}

/// No edge of `s` ends at `v`.
pub open spec fn none_enter(s: Seq<Edge>, v: int) -> bool {
    forall|x: int| 0 <= x < s.len() ==> (#[trigger] s[x]).to as int != v
}

proof fn lemma_item_edges_skip(items: Seq<Item>, recs: Seq<Recipient>, i: int, k: nat, ranked: bool, r: int)
    requires
        0 <= r < recs.len(),
        k <= recs.len(),
        items.len() + recs.len() + 2 <= usize::MAX,
        !wants(recs[r], items[i].name@),
    ensures
        none_enter(item_edges(items, recs, i, k, ranked), recipient_node(items, r)),
    decreases k,
{
    if k > 0 {
        lemma_item_edges_skip(items, recs, i, (k - 1) as nat, ranked, r);
        let a = item_edges(items, recs, i, (k - 1) as nat, ranked);
        let full = item_edges(items, recs, i, k, ranked);
        assert forall|x: int| 0 <= x < full.len() implies (#[trigger] full[x]).to as int
            != recipient_node(items, r) by {
            if x < a.len() {
                assert(full[x] == a[x]);
            }
        }
    }
}

proof fn lemma_supply_edges_skip(items: Seq<Item>, recs: Seq<Recipient>, m: nat, ranked: bool, r: int)
    requires
        0 <= r < recs.len(),
        m <= items.len(),
        items.len() + recs.len() + 2 <= usize::MAX,
        forall|i: int| 0 <= i < items.len() ==> !wants(recs[r], #[trigger] items[i].name@),
    ensures
        none_enter(supply_edges(items, recs, m, ranked), recipient_node(items, r)),
    decreases m,
{
    if m > 0 {
        lemma_supply_edges_skip(items, recs, (m - 1) as nat, ranked, r);
        lemma_item_edges_skip(items, recs, m - 1, recs.len(), ranked, r);
        let a = supply_edges(items, recs, (m - 1) as nat, ranked);
        let b = item_edges(items, recs, m - 1, recs.len(), ranked);
        let full = supply_edges(items, recs, m, ranked);
        assert forall|x: int| 0 <= x < full.len() implies (#[trigger] full[x]).to as int
            != recipient_node(items, r) by {
            if x < a.len() {
                assert(full[x] == a[x]);
            } else if x > a.len() {
                assert(full[x] == b[x - a.len() - 1]);
            }
        }
    }
}

proof fn lemma_demand_edges_skip(items: Seq<Item>, recs: Seq<Recipient>, m: nat, r: int)
    requires
        0 <= r < recs.len(),
        m <= recs.len(),
        items.len() + recs.len() + 2 <= usize::MAX,
    ensures
        none_enter(demand_edges(items, recs, m), recipient_node(items, r)),
        demand_edges(items, recs, m).len() == m,
        forall|x: int|
            0 <= x < m ==> (#[trigger] demand_edges(items, recs, m)[x]).from as int == recipient_node(
                items,
                x,
            ) && demand_edges(items, recs, m)[x].to == 1 && demand_edges(items, recs, m)[x].capacity
                == recs[x].max_allotment,
    decreases m,
{
    if m > 0 {
        lemma_demand_edges_skip(items, recs, (m - 1) as nat, r);
        let a = demand_edges(items, recs, (m - 1) as nat);
        let full = demand_edges(items, recs, m);
        assert forall|x: int| 0 <= x < full.len() implies (#[trigger] full[x]).to as int
            != recipient_node(items, r) by {
            if x < a.len() {
                assert(full[x] == a[x]);
            }
        }
        assert forall|x: int| 0 <= x < m implies (#[trigger] full[x]).from as int == recipient_node(
            items,
            x,
        ) && full[x].to == 1 && full[x].capacity == recs[x].max_allotment by {
            if x < a.len() {
                assert(full[x] == a[x]);
            }
        }
    }
}

proof fn lemma_in_flow_none(edges: Seq<Edge>, flow: Seq<u64>, v: int, k: nat)
    requires
        k <= edges.len(),
        none_enter(edges, v),
    ensures
        in_flow(edges, flow, v, k) == 0,
    decreases k,
{
    if k > 0 {
        lemma_in_flow_none(edges, flow, v, (k - 1) as nat);
    }
}

proof fn lemma_out_flow_covers(edges: Seq<Edge>, flow: Seq<u64>, e: int, k: nat)
    requires
        0 <= e < k <= edges.len(),
        flow.len() == edges.len(),
    ensures
        out_flow(edges, flow, edges[e].from as int, k) >= flow[e],
    decreases k,
{
    if k - 1 > e {
        lemma_out_flow_covers(edges, flow, e, (k - 1) as nat);
    } else {
        lemma_out_flow_nonneg(edges, flow, edges[e].from as int, (k - 1) as nat);
    }
}

proof fn lemma_out_flow_nonneg(edges: Seq<Edge>, flow: Seq<u64>, v: int, k: nat)
    ensures
        out_flow(edges, flow, v, k) >= 0,
    decreases k,
{
    if k > 0 {
        lemma_out_flow_nonneg(edges, flow, v, (k - 1) as nat);
    }
}

/// A recipient whose wishlist names no declared item has no edge coming in, so
/// every flow through the allocation network that is conserved at it carries
/// nothing over its edge to the sink.
pub proof fn lemma_unserved_recipient_gets_nothing(
    items: Seq<Item>,
    recs: Seq<Recipient>,
    ranked: bool,
    flow: Seq<u64>,
    r: int,
)
    requires
        items.len() + recs.len() + 2 <= usize::MAX,
        0 <= r < recs.len(),
        forall|j: int|
            0 <= j < recs[r].wishlist@.len() ==> !declared(items, (#[trigger] recs[r].wishlist@[j])@),
        flow.len() == allocation_edges(items, recs, ranked).len(),
        conserves(
            allocation_edges(items, recs, ranked),
            flow,
            (items.len() + recs.len() + 2) as nat,
            0,
            1,
        ),
    ensures
        ({
            let edges = allocation_edges(items, recs, ranked);
            let e = supply_edges(items, recs, items.len(), ranked).len() + r;
            &&& inbound(edges, flow, recipient_node(items, r)) == 0
            &&& edges[e].from as int == recipient_node(items, r)
            &&& edges[e].to == 1
            &&& flow[e] == 0
        }),
{
    let edges = allocation_edges(items, recs, ranked);
    let a = supply_edges(items, recs, items.len(), ranked);
    let b = demand_edges(items, recs, recs.len());
    let v = recipient_node(items, r);
    assert forall|i: int| 0 <= i < items.len() implies !wants(recs[r], #[trigger] items[i].name@) by {
        if wants(recs[r], items[i].name@) {
            let j = choose|j: int| 0 <= j < recs[r].wishlist@.len() && (#[trigger] recs[r].wishlist@[j])@
                == items[i].name@;
            assert(declared(items, recs[r].wishlist@[j]@));
        }
    }
    lemma_supply_edges_skip(items, recs, items.len(), ranked, r);
    lemma_demand_edges_skip(items, recs, recs.len(), r);
    assert forall|x: int| 0 <= x < edges.len() implies (#[trigger] edges[x]).to as int != v by {
        if x < a.len() {
            assert(edges[x] == a[x]);
        } else {
            assert(edges[x] == b[x - a.len()]);
        }
    }
    lemma_in_flow_none(edges, flow, v, edges.len());
    assert(outbound(edges, flow, v) == inbound(edges, flow, v));
    let e = a.len() + r;
    assert(edges[e] == b[r]);
    assert(b[r].from as int == recipient_node(items, r));
    lemma_out_flow_covers(edges, flow, e, edges.len());
}

/// How many of the first `m` items recipient `r` accepts.
pub open spec fn accepted_count(items: Seq<Item>, recs: Seq<Recipient>, r: int, m: nat) -> nat
    decreases m,
{
    if m == 0 {
        0
    } else {
        accepted_count(items, recs, r, (m - 1) as nat) + if wants(recs[r], items[m - 1].name@) {
            1nat
        } else {
            0nat
        }
    }
}

/// Capacity of the first `k` edges of `s` that end at `v`.
pub open spec fn in_capacity(s: Seq<Edge>, v: int, k: nat) -> int
    decreases k,
{
    if k == 0 {
        0
    } else {
        in_capacity(s, v, (k - 1) as nat) + if s[k - 1].to as int == v {
            s[k - 1].capacity as int
        } else {
            0
        }
    }
}

proof fn lemma_in_flow_within(edges: Seq<Edge>, flow: Seq<u64>, v: int, k: nat)
    requires
        respects_capacity(edges, flow),
        k <= edges.len(),
    ensures
        in_flow(edges, flow, v, k) <= in_capacity(edges, v, k),
    decreases k,
{
    if k > 0 {
        lemma_in_flow_within(edges, flow, v, (k - 1) as nat);
        assert(flow[k - 1] <= edges[k - 1].capacity);
    }
}

proof fn lemma_in_capacity_prefix(s: Seq<Edge>, t: Seq<Edge>, v: int, k: nat)
    requires
        k <= s.len(),
        k <= t.len(),
        forall|x: int| 0 <= x < k ==> s[x] == t[x],
    ensures
        in_capacity(s, v, k) == in_capacity(t, v, k),
    decreases k,
{
    if k > 0 {
        lemma_in_capacity_prefix(s, t, v, (k - 1) as nat);
    }
}

proof fn lemma_in_capacity_concat(a: Seq<Edge>, b: Seq<Edge>, v: int, j: nat)
    requires
        j <= b.len(),
    ensures
        in_capacity(a + b, v, a.len() + j) == in_capacity(a, v, a.len()) + in_capacity(b, v, j),
    decreases j,
{
    if j == 0 {
        lemma_in_capacity_prefix(a + b, a, v, a.len());
    } else {
        lemma_in_capacity_concat(a, b, v, (j - 1) as nat);
        assert((a + b)[a.len() + j - 1] == b[j - 1]);
    }
}

proof fn lemma_item_edges_capacity(items: Seq<Item>, recs: Seq<Recipient>, i: int, k: nat, ranked: bool, r: int)
    requires
        0 <= i < items.len(),
        0 <= r < recs.len(),
        k <= recs.len(),
        items.len() + recs.len() + 2 <= usize::MAX,
    ensures
        in_capacity(item_edges(items, recs, i, k, ranked), recipient_node(items, r), item_edges(items, recs, i, k, ranked).len())
            == if r < k && wants(recs[r], items[i].name@) {
            1int
        } else {
            0int
        },
    decreases k,
{
    if k > 0 {
        lemma_item_edges_capacity(items, recs, i, (k - 1) as nat, ranked, r);
        let a = item_edges(items, recs, i, (k - 1) as nat, ranked);
        let b = if wants(recs[k - 1], items[i].name@) {
            seq![
                Edge {
                    from: item_node(i) as usize,
                    to: recipient_node(items, k - 1) as usize,
                    capacity: 1,
                    cost: preference_cost(recs[k - 1], items[i].name@, ranked),
                },
            ]
        } else {
            Seq::empty()
        };
        let v = recipient_node(items, r);
        assert(item_edges(items, recs, i, k, ranked) == a + b);
        lemma_in_capacity_concat(a, b, v, b.len());
        if wants(recs[k - 1], items[i].name@) {
            assert((recipient_node(items, k - 1) as usize) as int == recipient_node(items, k - 1));
            assert(in_capacity(b, v, 1) == in_capacity(b, v, 0) + if b[0].to as int == v {
                b[0].capacity as int
            } else {
                0
            });
        }
    }
}

proof fn lemma_supply_edges_capacity(items: Seq<Item>, recs: Seq<Recipient>, m: nat, ranked: bool, r: int)
    requires
        m <= items.len(),
        0 <= r < recs.len(),
        items.len() + recs.len() + 2 <= usize::MAX,
    ensures
        in_capacity(supply_edges(items, recs, m, ranked), recipient_node(items, r), supply_edges(items, recs, m, ranked).len())
            == accepted_count(items, recs, r, m),
    decreases m,
{
    if m > 0 {
        lemma_supply_edges_capacity(items, recs, (m - 1) as nat, ranked, r);
        lemma_item_edges_capacity(items, recs, m - 1, recs.len(), ranked, r);
        let a = supply_edges(items, recs, (m - 1) as nat, ranked);
        let e = seq![
            Edge {
                from: 0,
                to: item_node(m - 1) as usize,
                capacity: items[m - 1].quantity,
                cost: 0,
            },
        ];
        let c = item_edges(items, recs, m - 1, recs.len(), ranked);
        let v = recipient_node(items, r);
        assert(supply_edges(items, recs, m, ranked) == (a + e) + c);
        assert((item_node(m - 1) as usize) as int == item_node(m - 1));
        assert(in_capacity(e, v, 1) == in_capacity(e, v, 0) + if e[0].to as int == v {
            e[0].capacity as int
        } else {
            0
        });
        lemma_in_capacity_concat(a, e, v, 1);
        lemma_in_capacity_concat(a + e, c, v, c.len());
    }
}

proof fn lemma_demand_edges_capacity(items: Seq<Item>, recs: Seq<Recipient>, m: nat, r: int)
    requires
        m <= recs.len(),
        0 <= r < recs.len(),
        items.len() + recs.len() + 2 <= usize::MAX,
    ensures
        in_capacity(demand_edges(items, recs, m), recipient_node(items, r), m) == 0,
    decreases m,
{
    lemma_demand_edges_skip(items, recs, m, r);
    if m > 0 {
        lemma_demand_edges_capacity(items, recs, (m - 1) as nat, r);
        let a = demand_edges(items, recs, (m - 1) as nat);
        lemma_demand_edges_skip(items, recs, (m - 1) as nat, r);
        lemma_in_capacity_prefix(demand_edges(items, recs, m), a, recipient_node(items, r), (m - 1) as nat);
    }
}

/// Each recipient takes at most one unit of each item it accepts: in every
/// flow through the allocation network that respects capacities and is
/// conserved, a recipient receives no more than its allotment and no more than
/// the number of declared items it accepts.
pub proof fn lemma_recipient_share_bounded(
    items: Seq<Item>,
    recs: Seq<Recipient>,
    ranked: bool,
    flow: Seq<u64>,
    r: int,
)
    requires
        items.len() + recs.len() + 2 <= usize::MAX,
        0 <= r < recs.len(),
        respects_capacity(allocation_edges(items, recs, ranked), flow),
        conserves(
            allocation_edges(items, recs, ranked),
            flow,
            (items.len() + recs.len() + 2) as nat,
            0,
            1,
        ),
    ensures
        ({
            let edges = allocation_edges(items, recs, ranked);
            let e = supply_edges(items, recs, items.len(), ranked).len() + r;
            &&& edges[e].from as int == recipient_node(items, r)
            &&& edges[e].to == 1
            &&& flow[e] <= recs[r].max_allotment
            &&& flow[e] <= accepted_count(items, recs, r, items.len())
        }),
{
    let edges = allocation_edges(items, recs, ranked);
    let a = supply_edges(items, recs, items.len(), ranked);
    let b = demand_edges(items, recs, recs.len());
    let v = recipient_node(items, r);
    lemma_demand_edges_skip(items, recs, recs.len(), r);
    lemma_supply_edges_capacity(items, recs, items.len(), ranked, r);
    lemma_demand_edges_capacity(items, recs, recs.len(), r);
    lemma_in_capacity_concat(a, b, v, b.len());
    lemma_in_flow_within(edges, flow, v, edges.len());
    assert(outbound(edges, flow, v) == inbound(edges, flow, v));
    let e = a.len() + r;
    assert(edges[e] == b[r]);
    lemma_out_flow_covers(edges, flow, e, edges.len());
    assert(flow[e] <= edges[e].capacity);
}

} // verus!
