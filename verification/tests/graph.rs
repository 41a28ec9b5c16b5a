use r2::graph::{GnodeCntrs, GnodeInit, Graph, GraphError, Output};
use r2::nodes::Mux;
use r2::pool::{PacketPool, PktsHeap};

fn names(list: &[&str]) -> Vec<String> {
    list.iter().map(|s| s.to_string()).collect()
}

fn pool() -> PktsHeap {
    PktsHeap::new(10, 20, 512).unwrap()
}

fn two_nodes() -> Graph<Mux, PktsHeap> {
    let mut g = Graph::new(0, pool());
    assert_eq!(g.add_node(Mux::new("A", names(&["B"]))), Ok(0));
    assert_eq!(g.add_node(Mux::new("B", names(&[]))), Ok(1));
    assert_eq!(g.finalize(), Ok(()));
    g
}

fn feed(g: &mut Graph<Mux, PktsHeap>, node: usize, count: usize) {
    for _ in 0..count {
        let pkt = g.pkt(0).unwrap();
        assert!(g.enqueue(node, pkt).is_ok());
    }
}

#[test]
fn two_node_graph_takes_two_passes() {
    let mut g = two_nodes();
    feed(&mut g, 0, 5);
    assert_eq!(g.pending_at(0), 5);
    assert_eq!(g.pending_total(), 5);
    assert_eq!(g.run(), (true, 5));
    assert_eq!(g.pending_at(0), 0);
    assert_eq!(g.pending_at(1), 5);
    assert_eq!(g.run(), (false, 5));
    assert_eq!(g.pending_at(0), 0);
    assert_eq!(g.pending_at(1), 0);
    assert_eq!(g.run(), (false, 0));
    assert_eq!(
        g.counters_at(0),
        GnodeCntrs { dispatched: 5, forwarded: 5, dropped: 0 }
    );
    assert_eq!(
        g.counters_at(1),
        GnodeCntrs { dispatched: 5, forwarded: 0, dropped: 0 }
    );
    // the last node gave every packet back to the pool
    feed(&mut g, 0, 10);
    assert!(g.pkt(0).is_none());
}

#[test]
fn a_later_node_waits_for_the_next_pass_too() {
    // B is visited before A: what A sends waits for the next pass all the same
    let mut g = Graph::new(0, pool());
    assert_eq!(g.add_node(Mux::new("B", names(&[]))), Ok(0));
    assert_eq!(g.add_node(Mux::new("A", names(&["B"]))), Ok(1));
    assert_eq!(g.finalize(), Ok(()));
    feed(&mut g, 1, 5);
    assert_eq!(g.run(), (true, 5));
    assert_eq!(g.pending_at(0), 5);
    assert_eq!(g.run(), (false, 5));
}

#[test]
fn a_node_is_not_handed_its_own_output_in_the_same_pass() {
    let mut g = Graph::new(0, pool());
    assert_eq!(g.add_node(Mux::new("loop", names(&["loop"]))), Ok(0));
    assert_eq!(g.finalize(), Ok(()));
    feed(&mut g, 0, 3);
    assert_eq!(g.run(), (true, 3));
    assert_eq!(g.pending_at(0), 3);
    assert_eq!(g.counters_at(0).dispatched, 3);
    assert_eq!(g.run(), (true, 3));
    assert_eq!(g.counters_at(0).dispatched, 6);
    assert_eq!(g.counters_at(0).forwarded, 6);
}

#[test]
fn packets_spread_over_the_edges() {
    let mut pool = pool();
    let mut pkts = Vec::new();
    for len in 0..4usize {
        let mut pkt = pool.pkt(0).unwrap();
        assert!(pkt.append(&mut pool, &vec![7u8; len]));
        pkts.push(pkt);
    }
    let mut g = Graph::new(3, pool);
    assert_eq!(g.add_node(Mux::new("in", names(&["even", "odd"]))), Ok(0));
    assert_eq!(g.add_node(Mux::new("odd", names(&[]))), Ok(1));
    assert_eq!(g.add_node(Mux::new("even", names(&["odd"]))), Ok(2));
    assert_eq!(g.finalize(), Ok(()));
    assert_eq!(g.thread(), 3);
    for pkt in pkts {
        assert!(g.enqueue(0, pkt).is_ok());
    }
    assert_eq!(g.run(), (true, 4));
    assert_eq!(g.pending_at(1), 2);
    assert_eq!(g.pending_at(2), 2);
    // the odd ones leave the graph; the even ones go on to "odd"
    assert_eq!(g.run(), (true, 4));
    assert_eq!(g.pending_at(1), 2);
    assert_eq!(g.pending_at(2), 0);
    assert_eq!(g.run(), (false, 2));
    assert_eq!(g.pending_total(), 0);
}

#[test]
fn a_chain_is_quiet_after_as_many_passes_as_it_is_long() {
    let mut g = Graph::new(0, pool());
    assert_eq!(g.add_node(Mux::new("n0", names(&["n1"]))), Ok(0));
    assert_eq!(g.add_node(Mux::new("n1", names(&["n2"]))), Ok(1));
    assert_eq!(g.add_node(Mux::new("n2", names(&["n3"]))), Ok(2));
    assert_eq!(g.add_node(Mux::new("n3", names(&[]))), Ok(3));
    assert_eq!(g.finalize(), Ok(()));
    feed(&mut g, 0, 2);
    feed(&mut g, 2, 1);
    let mut passes = 0;
    loop {
        let (more, _) = g.run();
        passes += 1;
        if !more {
            break;
        }
    }
    assert_eq!(passes, 4);
    assert_eq!(g.pending_total(), 0);
}

#[test]
fn duplicate_name_is_refused() {
    let mut g = Graph::new(0, pool());
    assert_eq!(g.add_node(Mux::new("A", names(&[]))), Ok(0));
    assert_eq!(g.add_node(Mux::new("A", names(&["B"]))), Err(GraphError::Duplicate));
    assert_eq!(g.num_nodes(), 1);
    assert_eq!(g.add_node(Mux::new("a", names(&[]))), Ok(1));
}

#[test]
fn finalized_graph_takes_no_node() {
    let mut g = two_nodes();
    assert!(g.finalized());
    assert_eq!(g.add_node(Mux::new("C", names(&[]))), Err(GraphError::Finalized));
    assert_eq!(g.add_node(Mux::new("A", names(&[]))), Err(GraphError::Finalized));
    assert_eq!(g.num_nodes(), 2);
    assert_eq!(g.finalize(), Ok(()));
}

#[test]
fn unresolved_edge_is_reported() {
    let mut g = Graph::new(0, pool());
    assert_eq!(g.add_node(Mux::new("A", names(&["B", "A"]))), Ok(0));
    assert_eq!(g.add_node(Mux::new("B", names(&["A", "C", "D"]))), Ok(1));
    assert_eq!(g.finalize(), Err(GraphError::Unresolved { node: 1, edge: 1 }));
    assert!(!g.finalized());
    // nothing can be put into a graph that is not finalized
    let pkt = g.pkt(0).unwrap();
    let pkt = g.enqueue(0, pkt).unwrap_err();
    assert_eq!(g.run(), (false, 0));
    g.free_pkt(pkt);
    assert_eq!(g.add_node(Mux::new("C", names(&[]))), Ok(2));
    assert_eq!(g.finalize(), Err(GraphError::Unresolved { node: 1, edge: 2 }));
    assert_eq!(g.add_node(Mux::new("D", names(&[]))), Ok(3));
    assert_eq!(g.finalize(), Ok(()));
    assert!(g.finalized());
}

#[test]
fn nodes_are_found_by_name() {
    let g = two_nodes();
    assert_eq!(g.index("A"), Some(0));
    assert_eq!(g.index("B"), Some(1));
    assert_eq!(g.index("C"), None);
    assert_eq!(g.index(""), None);
}

#[test]
fn enqueue_needs_a_node() {
    let mut g = two_nodes();
    let pkt = g.pkt(0).unwrap();
    let pkt = g.enqueue(2, pkt).unwrap_err();
    assert_eq!(g.pending_total(), 0);
    assert!(g.enqueue(1, pkt).is_ok());
    assert_eq!(g.pending_at(1), 1);
}

#[test]
fn an_output_without_an_edge_goes_back_to_the_pool() {
    let mut g = two_nodes();
    let pkt = g.pkt(0).unwrap();
    g.deliver(0, Output { edge: 1, pkt });
    assert_eq!(g.pending_total(), 0);
    assert_eq!(g.counters_at(0), GnodeCntrs { dispatched: 0, forwarded: 0, dropped: 1 });
    let pkt = g.pkt(0).unwrap();
    g.deliver(0, Output { edge: 0, pkt });
    assert_eq!(g.pending_at(1), 1);
    assert_eq!(g.counters_at(0), GnodeCntrs { dispatched: 0, forwarded: 1, dropped: 1 });
    feed(&mut g, 0, 9);
    assert!(g.pkt(0).is_none());
}

#[test]
fn add_with_given_counters() {
    let mut g: Graph<Mux, PktsHeap> = Graph::new(0, pool());
    let node = Mux::new("ignored", names(&[]));
    let init = GnodeInit {
        name: "X".to_string(),
        next_names: names(&["X"]),
        cntrs: GnodeCntrs { dispatched: u64::MAX - 1, forwarded: 0, dropped: 0 },
    };
    assert_eq!(g.add(node, init), Ok(0));
    assert_eq!(g.index("X"), Some(0));
    assert_eq!(g.index("ignored"), None);
    assert_eq!(g.finalize(), Ok(()));
    feed(&mut g, 0, 3);
    assert_eq!(g.run(), (false, 3));
    // the counter stops at the largest number it holds
    assert_eq!(g.counters_at(0).dispatched, u64::MAX);
    // the node itself has no edge, so the packets left the graph
    assert_eq!(g.counters_at(0).forwarded, 0);
}

#[test]
fn clone_gives_each_thread_its_own_graph() {
    let mut template = two_nodes();
    feed(&mut template, 0, 2);
    let mut g1 = template.clone(1, pool());
    let mut g2 = template.clone(2, PktsHeap::new(4, 4, 64).unwrap());
    assert_eq!(g1.thread(), 1);
    assert_eq!(g2.thread(), 2);
    assert_eq!(template.thread(), 0);
    assert_eq!(g1.num_nodes(), 2);
    assert!(g1.finalized());
    assert_eq!(g1.index("B"), Some(1));
    assert_eq!(g1.pending_total(), 0);
    assert_eq!(template.pending_total(), 2);
    feed(&mut g1, 0, 3);
    assert_eq!(g1.run(), (true, 3));
    assert_eq!(g2.run(), (false, 0));
    assert_eq!(template.pending_at(0), 2);
    assert_eq!(template.counters_at(0).dispatched, 0);
    assert_eq!(g1.counters_at(0).dispatched, 3);
    assert_eq!(g2.counters_at(0).dispatched, 0);
    assert_eq!(template.run(), (true, 2));
    assert_eq!(g1.pending_at(1), 3);
    let pkt = g2.pkt(0).unwrap();
    assert_eq!(pkt.particle_sz(), 64);
}

#[test]
fn clone_of_a_graph_that_is_not_finalized() {
    let mut template: Graph<Mux, PktsHeap> = Graph::new(0, pool());
    assert_eq!(template.add_node(Mux::new("A", names(&["B"]))), Ok(0));
    let mut g = template.clone(1, pool());
    assert!(!g.finalized());
    assert_eq!(g.add_node(Mux::new("B", names(&[]))), Ok(1));
    assert_eq!(g.finalize(), Ok(()));
    assert_eq!(template.num_nodes(), 1);
    assert_eq!(template.finalize(), Err(GraphError::Unresolved { node: 0, edge: 0 }));
}

#[test]
fn nodes_count_what_they_do() {
    let mut g = two_nodes();
    feed(&mut g, 0, 4);
    assert_eq!(g.run(), (true, 4));
    assert_eq!(g.node(0).sent(), 4);
    assert_eq!(g.node(0).consumed(), 0);
    assert_eq!(g.node(1).sent(), 0);
    assert_eq!(g.run(), (false, 4));
    assert_eq!(g.node(1).consumed(), 4);
    let copy = g.clone(1, pool());
    assert_eq!(copy.node(0).sent(), 0);
    assert_eq!(copy.node(1).consumed(), 0);
    assert_eq!(g.node(0).sent(), 4);
}

#[test]
fn packets_keep_their_order_and_their_bytes() {
    let mut pool = pool();
    let mut g_pkts = Vec::new();
    for k in 0..3u8 {
        let mut pkt = pool.pkt(0).unwrap();
        assert!(pkt.append(&mut pool, &[k, k]));
        g_pkts.push(pkt);
    }
    let mut g = Graph::new(0, pool);
    assert_eq!(g.add_node(Mux::new("in", names(&["out"]))), Ok(0));
    assert_eq!(g.add_node(Mux::new("out", names(&["in", "out"]))), Ok(1));
    assert_eq!(g.finalize(), Ok(()));
    for pkt in g_pkts {
        assert!(g.enqueue(0, pkt).is_ok());
    }
    // two bytes each: "in" sends them to "out", "out" sends them to "in"
    assert_eq!(g.run(), (true, 3));
    assert_eq!(g.pending_at(1), 3);
    assert_eq!(g.run(), (true, 3));
    assert_eq!(g.pending_at(0), 3);
    assert_eq!(g.pending_at(1), 0);
    assert_eq!(g.counters_at(1), GnodeCntrs { dispatched: 3, forwarded: 3, dropped: 0 });
}
