use present_flow::builder::{build_network, Item, NodeLabel, Recipient};
use present_flow::flow::certify_flow;
use present_flow::network::{Edge, FlowError, Network};
use present_flow::paths::{allocate_paths, decompose_paths};
use present_flow::solver::{allocate, flow_table, max_flow};

fn item(name: &str, quantity: u64) -> Item {
    Item { name: name.to_string(), quantity }
}

fn recipient(name: &str, wishlist: &[&str], max_allotment: u64) -> Recipient {
    Recipient {
        name: name.to_string(),
        wishlist: wishlist.iter().map(|s| s.to_string()).collect(),
        max_allotment,
    }
}

fn inflow(net: &Network, flows: &[u64], v: usize) -> u64 {
    net.edges.iter().zip(flows).filter(|(e, _)| e.to == v).map(|(_, f)| *f).sum()
}

fn outflow(net: &Network, flows: &[u64], v: usize) -> u64 {
    net.edges.iter().zip(flows).filter(|(e, _)| e.from == v).map(|(_, f)| *f).sum()
}

#[test]
fn scenario_four_items_two_recipients() {
    let items = vec![item("p1", 7), item("p2", 7), item("p3", 7), item("p4", 7)];
    let recs = vec![
        recipient("c1", &["p1", "p2"], 3),
        recipient("c2", &["p1", "p2", "p3", "p4"], 3),
    ];
    let a = allocate(&items, &recs).unwrap();
    // every recipient takes at most one unit of each item it accepts, so c1 is
    // held to its two wishlist items and c2 to its allotment of three
    assert_eq!(a.solution.value, 5);
}

#[test]
fn scenario_five_items_three_recipients() {
    let items = vec![item("p1", 2), item("p2", 1), item("p3", 3), item("p4", 4), item("p5", 3)];
    let recs = vec![
        recipient("c1", &["p1", "p2"], 3),
        recipient("c2", &["p1", "p2", "p3", "p4"], 3),
        recipient("c3", &["p4", "p5"], 3),
    ];
    let a = allocate(&items, &recs).unwrap();
    // one unit per accepted item: c1 and c3 get two each, c2 its three
    assert_eq!(a.solution.value, 7);
    let net = &a.network.network;
    let flows = &a.solution.flows;
    for (e, f) in net.edges.iter().zip(flows) {
        assert!(*f <= e.capacity);
    }
    for v in 2..net.num_nodes {
        assert_eq!(inflow(net, flows, v), outflow(net, flows, v));
    }
    assert_eq!(outflow(net, flows, 0), 7);
    assert_eq!(inflow(net, flows, 1), 7);
}

#[test]
fn recipient_with_empty_wishlist_gets_nothing() {
    let items = vec![item("p1", 2), item("p2", 1)];
    let recs = vec![recipient("c1", &["p1"], 3), recipient("c2", &[], 3)];
    let a = allocate(&items, &recs).unwrap();
    assert_eq!(a.solution.value, 1);
    // c2 is node 5; its edge to the sink is the last one
    let last = a.network.network.edges.len() - 1;
    assert_eq!(a.network.network.edges[last].from, 5);
    assert_eq!(a.solution.flows[last], 0);
}

#[test]
fn builder_layout() {
    let items = vec![item("p1", 2), item("p2", 5)];
    let recs = vec![recipient("c1", &["p2"], 4), recipient("c2", &["p1", "p2"], 1)];
    let a = build_network(&items, &recs).unwrap();
    let want = vec![
        Edge { from: 0, to: 2, capacity: 2, cost: 0 },
        Edge { from: 2, to: 5, capacity: 1, cost: 0 },
        Edge { from: 0, to: 3, capacity: 5, cost: 0 },
        Edge { from: 3, to: 4, capacity: 1, cost: 0 },
        Edge { from: 3, to: 5, capacity: 1, cost: 0 },
        Edge { from: 4, to: 1, capacity: 4, cost: 0 },
        Edge { from: 5, to: 1, capacity: 1, cost: 0 },
    ];
    assert_eq!(a.network.edges, want);
    assert_eq!(a.network.num_nodes, 6);
    assert!(matches!(a.labels[0], NodeLabel::Source));
    assert!(matches!(a.labels[1], NodeLabel::Sink));
    assert!(matches!(&a.labels[3], NodeLabel::Labeled(s) if s == "p2"));
    assert!(matches!(&a.labels[4], NodeLabel::Labeled(s) if s == "c1"));
}

#[test]
fn duplicate_item_name_is_rejected() {
    let items = vec![item("p1", 2), item("p1", 1)];
    let recs = vec![recipient("c1", &["p1"], 3)];
    assert_eq!(build_network(&items, &recs).err(), Some(FlowError::DuplicateName));
}

#[test]
fn duplicate_recipient_name_is_rejected() {
    let items = vec![item("p1", 2)];
    let recs = vec![recipient("c1", &["p1"], 3), recipient("c1", &[], 1)];
    assert_eq!(allocate(&items, &recs).err(), Some(FlowError::DuplicateName));
}

#[test]
fn unknown_wishlist_entry_is_rejected() {
    let items = vec![item("p1", 2)];
    let recs = vec![recipient("c1", &["p1", "p9"], 3)];
    assert_eq!(build_network(&items, &recs).err(), Some(FlowError::UnknownReference));
}

#[test]
fn add_edge_checks_endpoints() {
    let mut net = Network::new();
    let a = net.add_node();
    let b = net.add_node();
    assert_eq!((a, b), (0, 1));
    assert_eq!(net.add_edge(a, b, 3, 0), Ok(0));
    assert_eq!(net.add_edge(a, b, 3, 0), Ok(1));
    assert_eq!(net.add_edge(a, 2, 3, 0), Err(FlowError::InvalidNode));
    assert_eq!(net.edges().len(), 2);
    assert_eq!(net.node_count(), 2);
}

#[test]
fn same_source_and_sink_is_degenerate() {
    let mut net = Network::new();
    let a = net.add_node();
    assert_eq!(max_flow(&net, a, a).err(), Some(FlowError::DegenerateNetwork));
    assert_eq!(max_flow(&net, a, 4).err(), Some(FlowError::InvalidNode));
}

#[test]
fn disconnected_terminals_give_zero_flow() {
    let mut net = Network::new();
    let s = net.add_node();
    let t = net.add_node();
    let m = net.add_node();
    net.add_edge(s, m, 5, 0).unwrap();
    let sol = max_flow(&net, s, t).unwrap();
    assert_eq!(sol.value, 0);
    assert_eq!(sol.flows, vec![0]);
}

#[test]
fn parallel_edges_carry_flow_apart() {
    let mut net = Network::new();
    let s = net.add_node();
    let t = net.add_node();
    net.add_edge(s, t, 2, 0).unwrap();
    net.add_edge(s, t, 3, 0).unwrap();
    let sol = max_flow(&net, s, t).unwrap();
    assert_eq!(sol.value, 5);
    assert_eq!(sol.flows, vec![2, 3]);
    assert_eq!(flow_table(&net, &sol), vec![(0, 2, 2), (1, 3, 3)]);
}

#[test]
fn certify_rejects_bad_flows() {
    let mut net = Network::new();
    let s = net.add_node();
    let m = net.add_node();
    let t = net.add_node();
    net.add_edge(s, m, 2, 0).unwrap();
    net.add_edge(m, t, 2, 0).unwrap();
    // over capacity
    assert_eq!(certify_flow(&net, s, t, vec![3, 3]).err(), Some(FlowError::InvalidFlow));
    // not conserved at m
    assert_eq!(certify_flow(&net, s, t, vec![2, 1]).err(), Some(FlowError::InvalidFlow));
    // feasible but an augmenting path remains
    assert_eq!(certify_flow(&net, s, t, vec![1, 1]).err(), Some(FlowError::InvalidFlow));
    // wrong length
    assert_eq!(certify_flow(&net, s, t, vec![2]).err(), Some(FlowError::InvalidFlow));
    let sol = certify_flow(&net, s, t, vec![2, 2]).unwrap();
    assert_eq!(sol.value, 2);
}

#[test]
fn repeated_solves_agree() {
    let items = vec![item("p1", 2), item("p2", 1), item("p3", 3), item("p4", 4), item("p5", 3)];
    let recs = vec![
        recipient("c1", &["p1", "p2"], 3),
        recipient("c2", &["p1", "p2", "p3", "p4"], 3),
        recipient("c3", &["p4", "p5"], 3),
    ];
    let a = allocate(&items, &recs).unwrap();
    let b = allocate(&items, &recs).unwrap();
    assert_eq!(a.solution.value, b.solution.value);
    assert_eq!(a.solution.flows, b.solution.flows);
    assert_eq!(a.network.network.edges, b.network.network.edges);
}

#[test]
fn edmonds_karp_result_is_not_the_zero_flow() {
    let mut net = Network::new();
    let s = net.add_node();
    let t = net.add_node();
    let m = net.add_node();
    net.add_edge(s, m, 4, 0).unwrap();
    net.add_edge(m, t, 3, 0).unwrap();
    net.add_edge(s, t, 1, 0).unwrap();
    let sol = max_flow(&net, s, t).unwrap();
    assert_eq!(sol.value, 4);
    assert_eq!(sol.flows, vec![3, 3, 1]);
}

#[test]
fn decomposition_reproduces_allocation_flow() {
    let items = vec![item("p1", 2), item("p2", 1), item("p3", 3), item("p4", 4), item("p5", 3)];
    let recs = vec![
        recipient("c1", &["p1", "p2"], 3),
        recipient("c2", &["p1", "p2", "p3", "p4"], 3),
        recipient("c3", &["p4", "p5"], 3),
    ];
    let a = allocate(&items, &recs).unwrap();
    let net = &a.network.network;
    let d = decompose_paths(net, 0, 1, &a.solution.flows);
    assert!(d.remaining.iter().all(|r| *r == 0));
    let total: u64 = d.paths.iter().map(|p| p.amount).sum();
    assert_eq!(total, a.solution.value);
    let mut usage = vec![0u64; net.edges.len()];
    for p in &d.paths {
        assert_eq!(net.edges[p.edges[0]].from, 0);
        assert_eq!(net.edges[*p.edges.last().unwrap()].to, 1);
        for w in p.edges.windows(2) {
            assert_eq!(net.edges[w[0]].to, net.edges[w[1]].from);
        }
        for e in &p.edges {
            usage[*e] += p.amount;
        }
    }
    assert_eq!(usage, a.solution.flows);
}

#[test]
fn decomposition_of_two_routes() {
    let mut net = Network::new();
    let s = net.add_node();
    let t = net.add_node();
    let m = net.add_node();
    net.add_edge(s, m, 4, 0).unwrap();
    net.add_edge(m, t, 3, 0).unwrap();
    net.add_edge(s, t, 1, 0).unwrap();
    let d = decompose_paths(&net, s, t, &vec![3, 3, 1]);
    // breadth-first search takes the direct edge first
    assert_eq!(d.paths.len(), 2);
    assert_eq!(d.paths[0].edges, vec![2]);
    assert_eq!(d.paths[0].amount, 1);
    assert_eq!(d.paths[1].edges, vec![0, 1]);
    assert_eq!(d.paths[1].amount, 3);
    assert_eq!(d.remaining, vec![0, 0, 0]);
}

#[test]
fn decomposition_leaves_a_cycle_in_remaining() {
    let mut net = Network::new();
    let s = net.add_node();
    let t = net.add_node();
    let a = net.add_node();
    let b = net.add_node();
    net.add_edge(a, b, 1, 0).unwrap();
    net.add_edge(b, a, 1, 0).unwrap();
    net.add_edge(s, t, 2, 0).unwrap();
    let d = decompose_paths(&net, s, t, &vec![1, 1, 2]);
    assert_eq!(d.paths.len(), 1);
    assert_eq!(d.paths[0].amount, 2);
    assert_eq!(d.remaining, vec![1, 1, 0]);
}

#[test]
fn allocation_paths_carry_the_whole_flow() {
    let items = vec![item("p1", 2), item("p2", 1), item("p3", 3), item("p4", 4), item("p5", 3)];
    let recs = vec![
        recipient("c1", &["p1", "p2"], 3),
        recipient("c2", &["p1", "p2", "p3", "p4"], 3),
        recipient("c3", &["p4", "p5"], 3),
    ];
    let pa = allocate_paths(&items, &recs).unwrap();
    let total: u64 = pa.paths.iter().map(|p| p.amount).sum();
    assert_eq!(total, 7);
    assert_eq!(total, pa.allocation.solution.value);
    for p in &pa.paths {
        assert_eq!(p.edges.len(), 3);
        assert_eq!(p.amount, 1);
    }
    assert_eq!(allocate_paths(&items, &vec![recipient("c1", &["zz"], 1)]).err(), Some(FlowError::UnknownReference));
}
