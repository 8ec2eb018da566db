use present_flow::builder::{accepts, build_ranked_network, wish_rank, Item, Recipient};
use present_flow::cost::{certify_no_negative_cycle, total_cost};
use present_flow::mincost::{allocate_by_preference, min_cost_max_flow};
use present_flow::network::{Edge, FlowError, Network};
use present_flow::solver::allocate;

fn cheap_and_dear() -> Network {
    let mut net = Network::new();
    let s = net.add_node();
    let t = net.add_node();
    let a = net.add_node();
    net.add_edge(s, a, 1, 0).unwrap();
    net.add_edge(a, t, 1, 3).unwrap();
    net.add_edge(a, t, 1, 1).unwrap();
    net
}

#[test]
fn min_cost_takes_the_cheaper_parallel_edge() {
    let net = cheap_and_dear();
    let m = min_cost_max_flow(&net, 0, 1).unwrap();
    assert_eq!(m.value, 1);
    assert_eq!(m.cost, 1);
    assert_eq!(m.flows, vec![1, 0, 1]);
}

#[test]
fn min_cost_reroutes_through_a_reverse_edge() {
    // the cheapest first walk is s->a->b->t; the second must take a->b back,
    // leaving s->a->t and s->b->t, the only flow of value two
    let mut net = Network::new();
    let s = net.add_node();
    let t = net.add_node();
    let a = net.add_node();
    let b = net.add_node();
    net.add_edge(s, a, 1, 1).unwrap();
    net.add_edge(a, b, 1, 1).unwrap();
    net.add_edge(b, t, 1, 1).unwrap();
    net.add_edge(s, b, 1, 5).unwrap();
    net.add_edge(a, t, 1, 5).unwrap();
    let m = min_cost_max_flow(&net, s, t).unwrap();
    assert_eq!(m.value, 2);
    assert_eq!(m.cost, 12);
    assert_eq!(m.flows, vec![1, 0, 1, 1, 1]);
}

#[test]
fn min_cost_cost_is_sum_of_flow_times_cost() {
    let mut net = Network::new();
    let s = net.add_node();
    let t = net.add_node();
    let m = net.add_node();
    net.add_edge(s, m, 4, 2).unwrap();
    net.add_edge(m, t, 3, -1).unwrap();
    net.add_edge(s, t, 2, 7).unwrap();
    let r = min_cost_max_flow(&net, s, t).unwrap();
    assert_eq!(r.value, 5);
    assert_eq!(r.flows, vec![3, 3, 2]);
    assert_eq!(r.cost, 3 * 2 + 3 * -1 + 2 * 7);
    assert_eq!(total_cost(&net, &r.flows), r.cost);
}

#[test]
fn min_cost_errors() {
    let net = cheap_and_dear();
    assert_eq!(min_cost_max_flow(&net, 0, 0).err(), Some(FlowError::DegenerateNetwork));
    assert_eq!(min_cost_max_flow(&net, 0, 9).err(), Some(FlowError::InvalidNode));
}

#[test]
fn min_cost_zero_flow_when_disconnected() {
    let mut net = Network::new();
    let s = net.add_node();
    let t = net.add_node();
    let x = net.add_node();
    net.add_edge(x, t, 3, 1).unwrap();
    let m = min_cost_max_flow(&net, s, t).unwrap();
    assert_eq!(m.value, 0);
    assert_eq!(m.cost, 0);
    assert_eq!(m.flows, vec![0]);
}

#[test]
fn negative_cycle_is_detected() {
    let net = cheap_and_dear();
    // sending the unit over the dear edge leaves a cheaper detour in the
    // residual graph: back over the dear edge, forward over the cheap one
    assert!(!certify_no_negative_cycle(&net, &vec![1, 1, 0]));
    assert!(certify_no_negative_cycle(&net, &vec![1, 0, 1]));
}

#[test]
fn repeated_min_cost_solves_agree() {
    let net = cheap_and_dear();
    let a = min_cost_max_flow(&net, 0, 1).unwrap();
    let b = min_cost_max_flow(&net, 0, 1).unwrap();
    assert_eq!((a.value, a.cost, a.flows), (b.value, b.cost, b.flows));
}

#[test]
fn allocation_min_cost_matches_max_flow_value() {
    let items = vec![
        Item { name: "p1".to_string(), quantity: 2 },
        Item { name: "p2".to_string(), quantity: 1 },
    ];
    let recs = vec![Recipient {
        name: "c1".to_string(),
        wishlist: vec!["p1".to_string(), "p2".to_string()],
        max_allotment: 3,
    }];
    let a = allocate(&items, &recs).unwrap();
    let m = min_cost_max_flow(&a.network.network, 0, 1).unwrap();
    assert_eq!(m.value, a.solution.value);
    assert_eq!(m.value, 2);
    assert_eq!(m.cost, 0);
}

fn named(name: &str, wishlist: &[&str], max_allotment: u64) -> Recipient {
    Recipient::new(
        name.to_string(),
        wishlist.iter().map(|s| s.to_string()).collect(),
        max_allotment,
    )
}

#[test]
fn ranked_network_costs_follow_wishlist_order() {
    let items = vec![Item::new("p1".to_string(), 1), Item::new("p2".to_string(), 1)];
    let recs = vec![named("c1", &["p2", "p1"], 1)];
    let a = build_ranked_network(&items, &recs).unwrap();
    let want = vec![
        Edge { from: 0, to: 2, capacity: 1, cost: 0 },
        Edge { from: 2, to: 4, capacity: 1, cost: 1 },
        Edge { from: 0, to: 3, capacity: 1, cost: 0 },
        Edge { from: 3, to: 4, capacity: 1, cost: 0 },
        Edge { from: 4, to: 1, capacity: 1, cost: 0 },
    ];
    assert_eq!(a.network.edges, want);
}

#[test]
fn preference_allocation_honours_first_wishes() {
    let items = vec![Item::new("p1".to_string(), 1), Item::new("p2".to_string(), 1)];
    let recs = vec![named("c1", &["p1", "p2"], 1), named("c2", &["p2", "p1"], 1)];
    let a = allocate_by_preference(&items, &recs).unwrap();
    assert_eq!(a.solution.value, 2);
    assert_eq!(a.solution.cost, 0);
    // p1 -> c1 and p2 -> c2 carry the flow; the second choices stay empty
    let net = &a.network.network;
    for (e, f) in net.edges.iter().zip(&a.solution.flows) {
        if e.from >= 2 && e.to >= 2 {
            assert_eq!(*f, if e.cost == 0 { 1 } else { 0 });
        }
    }
}

#[test]
fn preference_allocation_pays_for_second_wishes_when_needed() {
    let items = vec![Item::new("p1".to_string(), 1), Item::new("p2".to_string(), 1)];
    let recs = vec![named("c1", &["p1", "p2"], 1), named("c2", &["p1"], 1)];
    let a = allocate_by_preference(&items, &recs).unwrap();
    assert_eq!(a.solution.value, 2);
    assert_eq!(a.solution.cost, 1);
}

#[test]
fn preference_allocation_reports_duplicates() {
    let items = vec![Item::new("p1".to_string(), 1), Item::new("p1".to_string(), 1)];
    let recs = vec![named("c1", &["p1"], 1)];
    assert_eq!(allocate_by_preference(&items, &recs).err(), Some(FlowError::DuplicateName));
    let items = vec![Item::new("p1".to_string(), 1)];
    let recs = vec![named("c1", &["p7"], 1)];
    assert_eq!(allocate_by_preference(&items, &recs).err(), Some(FlowError::UnknownReference));
}

#[test]
fn wishlist_lookups() {
    let r = named("c1", &["p3", "p1", "p3"], 2);
    assert_eq!(wish_rank(&r, &"p3".to_string()), Some(0));
    assert_eq!(wish_rank(&r, &"p1".to_string()), Some(1));
    assert_eq!(wish_rank(&r, &"p9".to_string()), None);
    assert!(accepts(&r, &"p1".to_string()));
    assert!(!accepts(&r, &"p2".to_string()));
}
