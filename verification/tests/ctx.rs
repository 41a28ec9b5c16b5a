use r2::config::{CfgError, DpdkCfg};
use r2::ctx::{Delivery, R2, DEF_PARTICLE_SZ, DEF_PARTS, DEF_PKTS, LOGLINES, LOGSZ, THREADS};
use r2::engine::{Backend, Phase};
use r2::graph::{GnodeCntrs, Graph};
use r2::msg::{Binding, Ctrl, R2Msg};
use r2::nodes::Mux;
use r2::pool::{PacketPool, PktsHeap};

fn names(list: &[&str]) -> Vec<String> {
    list.iter().map(|s| s.to_string()).collect()
}

fn context(nthreads: usize) -> R2 {
    R2::new("r2_counters", "r2_logs", LOGSZ, LOGLINES, nthreads)
}

fn template() -> Graph<Mux, PktsHeap> {
    let pool = PktsHeap::new(DEF_PKTS, DEF_PARTS, DEF_PARTICLE_SZ).unwrap();
    let mut g = Graph::new(0, pool);
    assert_eq!(g.add_node(Mux::new("A", names(&["B"]))), Ok(0));
    assert_eq!(g.add_node(Mux::new("B", names(&[]))), Ok(1));
    assert_eq!(g.finalize(), Ok(()));
    g
}

fn route_add() -> R2Msg {
    R2Msg::new(Ctrl::Node("A".to_string(), vec![10, 0, 0, 0, 8]), 0, "control")
}

#[test]
fn new_context_knows_every_thread() {
    let r2 = context(THREADS);
    assert_eq!(r2.nthreads(), 2);
    assert_eq!(r2.counters(), "r2_counters");
    assert_eq!(r2.log_shape(), (32, 1000));
    assert_eq!(r2.logger(0), "r2_logs:0");
    assert_eq!(r2.logger(1), "r2_logs:1");
    assert!(!r2.is_connected(0));
    assert!(!r2.is_connected(1));
    assert_eq!(r2.dpdk(), DpdkCfg { on: false, mem: 0, ncores: 0 });
    assert_eq!(context(0).nthreads(), 0);
    assert_eq!(context(12).logger(11), "r2_logs:11");
}

#[test]
fn unicast_reaches_one_thread() {
    let mut r2 = context(2);
    // before the thread has a channel the message is dropped, the thread woken
    assert_eq!(r2.unicast(route_add(), 1), Some(Delivery { thread: 1, msg: None }));
    let f = r2.create_thread(template(), 1).ok().unwrap();
    assert_eq!(f.thread(), 1);
    assert_eq!(r2.unicast(route_add(), 1), Some(Delivery { thread: 1, msg: Some(route_add()) }));
    assert_eq!(r2.unicast(route_add(), 0), Some(Delivery { thread: 0, msg: None }));
    assert_eq!(r2.unicast(route_add(), 2), None);
}

#[test]
fn broadcast_gives_each_thread_its_own_instance() {
    let mut r2 = context(3);
    assert!(r2.create_thread(template(), 0).is_ok());
    assert!(r2.create_thread(template(), 2).is_ok());
    let mut out = r2.broadcast(route_add());
    assert_eq!(out.len(), 3);
    for t in 0..3 {
        assert_eq!(out[t].thread, t);
    }
    assert!(out[1].msg.is_none());
    let zero = GnodeCntrs { dispatched: 0, forwarded: 0, dropped: 0 };
    assert_eq!(
        out[0].msg,
        Some(R2Msg {
            ctrl: Ctrl::Node("A".to_string(), vec![10, 0, 0, 0, 8]),
            bound: Binding { thread: 0, logger: "r2_logs:0".to_string(), cntrs: zero },
        })
    );
    assert_eq!(
        out[2].msg,
        Some(R2Msg {
            ctrl: Ctrl::Node("A".to_string(), vec![10, 0, 0, 0, 8]),
            bound: Binding { thread: 2, logger: "r2_logs:2".to_string(), cntrs: zero },
        })
    );
    // what is done to one instance leaves the other as it was
    {
        let first = out[0].msg.as_mut().unwrap();
        first.bound.cntrs.dispatched = 5;
        first.bound.logger.push_str("-changed");
        if let Ctrl::Node(node, data) = &mut first.ctrl {
            node.push('!');
            data.clear();
        }
    }
    assert_eq!(
        out[2].msg,
        Some(R2Msg {
            ctrl: Ctrl::Node("A".to_string(), vec![10, 0, 0, 0, 8]),
            bound: Binding { thread: 2, logger: "r2_logs:2".to_string(), cntrs: zero },
        })
    );
    assert_eq!(out[0].msg.as_ref().unwrap().bound.cntrs.dispatched, 5);
}

#[test]
fn broadcast_without_threads() {
    let r2 = context(0);
    assert_eq!(r2.broadcast(route_add()), vec![]);
    let r2 = context(2);
    assert_eq!(
        r2.broadcast(R2Msg::new(Ctrl::EpollAdd(4), 0, "control")),
        vec![Delivery { thread: 0, msg: None }, Delivery { thread: 1, msg: None }]
    );
}

#[test]
fn create_thread_hands_over_what_is_known() {
    let mut r2 = context(2);
    assert!(r2.add_poll_fd(1, 11));
    assert!(r2.add_poll_fd(1, 12));
    assert!(!r2.add_poll_fd(2, 13));
    let f = r2.create_thread(template(), 1).ok().unwrap();
    assert_eq!(f.poll_fds(), &vec![11, 12]);
    assert_eq!(f.backend(), Backend::Epoll);
    assert_eq!(f.phase(), Phase::Draining);
    assert!(r2.is_connected(1));
    assert!(!r2.is_connected(0));
    let back = r2.create_thread(template(), 2).err().unwrap();
    assert_eq!(back.num_nodes(), 2);
    let f = r2.create_thread(template(), 0).ok().unwrap();
    assert_eq!(f.poll_fds(), &vec![]);
}

#[test]
fn launch_threads_sets_up_every_thread() {
    let mut r2 = context(3);
    assert!(r2.add_poll_fd(0, 5));
    let mut graph = template();
    let pkt = graph.pkt(0).unwrap();
    assert!(graph.enqueue(0, pkt).is_ok());
    let threads = r2.launch_threads(graph);
    assert_eq!(threads.len(), 3);
    assert_eq!(threads[0].thread(), 1);
    assert_eq!(threads[1].thread(), 2);
    assert_eq!(threads[2].thread(), 0);
    for f in threads.iter() {
        assert_eq!(f.graph().num_nodes(), 2);
        assert!(f.graph().finalized());
        assert_eq!(f.graph().thread(), f.thread());
        assert_eq!(f.backend(), Backend::Epoll);
        assert!(r2.is_connected(f.thread()));
    }
    // the copies start empty; the first thread runs the graph it was given
    assert_eq!(threads[0].graph().pending_total(), 0);
    assert_eq!(threads[1].graph().pending_total(), 0);
    assert_eq!(threads[2].graph().pending_total(), 1);
    assert_eq!(threads[2].poll_fds(), &vec![5]);
    let mut threads = threads;
    let pkt = threads[0].pkt(0).unwrap();
    assert_eq!(pkt.particle_sz(), 3072);
    let out = r2.broadcast(route_add());
    assert!(out.iter().all(|d| d.msg.is_some()));
}

#[test]
fn launch_threads_without_threads() {
    let mut r2 = context(0);
    assert_eq!(r2.launch_threads(template()).len(), 0);
    let mut r2 = context(1);
    let threads = r2.launch_threads(template());
    assert_eq!(threads.len(), 1);
    assert_eq!(threads[0].thread(), 0);
}

#[test]
fn configuration_selects_the_backend() {
    let mut r2 = context(2);
    assert_eq!(r2.parse_cfg("[dpdk]\non=true\nmem=1024\nncores=2\n"), Ok(()));
    assert_eq!(r2.dpdk(), DpdkCfg { on: true, mem: 1024, ncores: 2 });
    let threads = r2.launch_threads(template());
    assert_eq!(threads[0].backend(), Backend::Polling);
    assert_eq!(threads[1].backend(), Backend::Polling);
    assert_eq!(
        r2.parse_cfg("[dpdk]\non=false\n[bgp]\n"),
        Err(CfgError::UnknownSection("bgp".to_string()))
    );
    assert_eq!(r2.dpdk(), DpdkCfg { on: true, mem: 1024, ncores: 2 });
    assert_eq!(r2.logger(1), "r2_logs:1");
}

#[test]
fn default_pool_sizes() {
    assert_eq!(DEF_PKTS, 512);
    assert_eq!(DEF_PARTS, 1024);
    assert_eq!(DEF_PARTICLE_SZ, 3072);
    let pool = PktsHeap::new(DEF_PKTS, DEF_PARTS, DEF_PARTICLE_SZ).unwrap();
    assert_eq!(pool.particle_sz(), 3072);
    assert_eq!(pool.free_particle_count(), 1024);
}
