//! The control plane's context: what it knows of each forwarding thread,
//! and how it sends messages to them.

use vstd::prelude::*;
use crate::config::{apply_result, ini_items, CfgError, DpdkCfg};
use crate::engine::{Backend, Forwarder, Phase};
use crate::graph::{total, Graph, Node};
use crate::msg::{R2Msg, R2MsgView};
use crate::pool::{PacketPool, PktsHeap, PoolView};
use crate::text::{indexed_name, spec_indexed_name};

verus! {

/// The number of forwarding threads.
pub const THREADS: usize = 2;

/// The bytes of one entry of a thread's log.
pub const LOGSZ: usize = 32;

/// The entries that a thread's log holds.
pub const LOGLINES: usize = 1000;

/// The most descriptors that a thread watches.
pub const MAX_FDS: i32 = 4000;

/// The packets of each thread's pool.
pub const DEF_PKTS: usize = 512;

/// The particles of each thread's pool.
pub const DEF_PARTS: usize = 2 * DEF_PKTS;

/// The size of a particle of each thread's pool.
pub const DEF_PARTICLE_SZ: usize = 3072;

/// What the control plane knows of one forwarding thread.
pub struct R2PerThread {
    thread: usize,
    ctrl2fwd: bool,
    poll_fds: Vec<i32>,
    logger: String,
}

/// What is to be done for one thread when a message is sent: the message,
/// if the thread has a channel to take it, and in any case a write to the
/// thread's wake-up descriptor.
#[derive(Debug, PartialEq, Eq)]
pub struct Delivery {
    pub thread: usize,
    pub msg: Option<R2Msg>,
}

/// What a `Delivery` says.
pub struct DeliveryView {
    pub thread: usize,
    pub msg: Option<R2MsgView>,
}

impl View for Delivery {
    type V = DeliveryView;

    open spec fn view(&self) -> DeliveryView {
        DeliveryView {
            thread: self.thread,
            msg: match self.msg {
                Some(m) => Some(m@),
                None => None,
            },
        }
    }
}

/// What each of `deliveries` says.
pub open spec fn delivery_views(deliveries: Seq<Delivery>) -> Seq<DeliveryView> {
    Seq::new(deliveries.len(), |i: int| deliveries[i]@)
}

/// The instances of one broadcast are independent: when the one for
/// thread `i` is changed in any way, the one for any other thread `j` is
/// what it was.
pub proof fn lemma_broadcast_isolation(
    deliveries: Seq<DeliveryView>,
    i: int,
    j: int,
    changed: R2MsgView,
)
    requires
        0 <= i < deliveries.len(),
        0 <= j < deliveries.len(),
        i != j,
    ensures
        deliveries.update(i, DeliveryView { thread: deliveries[i].thread, msg: Some(changed) })[j]
            == deliveries[j],
{
}

/// The context of the control plane. It belongs to the control plane
/// alone: forwarding threads never see it, and learn of what changes in
/// it through messages.
pub struct R2 {
    counters: String,
    log_data: usize,
    log_size: usize,
    nthreads: usize,
    threads: Vec<R2PerThread>,
    dpdk: DpdkCfg,
}

impl R2 {
    /// The number of forwarding threads.
    pub closed spec fn spec_nthreads(&self) -> nat {
        self.nthreads as nat
    }

    /// The name of the counters.
    pub closed spec fn spec_counters(&self) -> Seq<char> {
        self.counters@
    }

    /// For each thread, the name of its logger.
    pub closed spec fn loggers(&self) -> Seq<Seq<char>> {
        Seq::new(self.threads@.len(), |i: int| self.threads@[i].logger@)
    }

    /// For each thread, whether it has a channel that takes messages.
    pub closed spec fn connected(&self) -> Seq<bool> {
        Seq::new(self.threads@.len(), |i: int| self.threads@[i].ctrl2fwd)
    }

    /// For each thread, the descriptors that it is to watch from its start.
    pub closed spec fn poll_fds(&self) -> Seq<Seq<i32>> {
        Seq::new(self.threads@.len(), |i: int| self.threads@[i].poll_fds@)
    }

    /// How the polling backend is set up.
    pub closed spec fn spec_dpdk(&self) -> DpdkCfg {
        self.dpdk
    }

    /// The size of a log entry and the number of entries of each logger.
    pub closed spec fn spec_log_shape(&self) -> (usize, usize) {
        (self.log_data, self.log_size)
    }

    /// There is one record for each thread, at the thread's place.
    pub closed spec fn wf(&self) -> bool {
        &&& self.threads@.len() == self.nthreads
        &&& forall|i: int| 0 <= i < self.threads@.len()
            ==> (#[trigger] self.threads@[i]).thread == i
    }

    /// What a consistent context is known to be, in terms of what it shows.
    pub proof fn lemma_wf(&self)
        requires
            self.wf(),
        ensures
            self.loggers().len() == self.spec_nthreads(),
            self.connected().len() == self.spec_nthreads(),
            self.poll_fds().len() == self.spec_nthreads(),
    {
    }

    /// The context for `nthreads` forwarding threads. The logger of the
    /// thread at place `t` is called `log_name`, a colon, and `t`. No
    /// thread has a channel yet or a descriptor to watch, and the polling
    /// backend is off.
    pub fn new(
        counter_name: &str,
        log_name: &str,
        log_data: usize,
        log_size: usize,
        nthreads: usize,
    ) -> (r2: R2)
        ensures
            r2.wf(),
            r2.spec_nthreads() == nthreads,
            r2.spec_counters() == counter_name@,
            r2.spec_log_shape() == (log_data, log_size),
            r2.spec_dpdk() == (DpdkCfg { on: false, mem: 0, ncores: 0 }),
            forall|t: int|
                #![trigger r2.loggers()[t]]
                #![trigger r2.connected()[t]]
                #![trigger r2.poll_fds()[t]]
                0 <= t < nthreads ==> {
                    &&& r2.loggers()[t] == spec_indexed_name(log_name@, t as nat)
                    &&& !r2.connected()[t]
                    &&& r2.poll_fds()[t] == Seq::<i32>::empty()
                },
    {
        let mut threads: Vec<R2PerThread> = Vec::new();
        let mut t: usize = 0;
        while t < nthreads
            invariant
                t <= nthreads,
                threads@.len() == t,
                forall|i: int|
                    0 <= i < t ==> {
                        &&& (#[trigger] threads@[i]).thread == i
                        &&& threads@[i].logger@ == spec_indexed_name(log_name@, i as nat)
                        &&& !threads@[i].ctrl2fwd
                        &&& threads@[i].poll_fds@ == Seq::<i32>::empty()
                    },
            decreases nthreads - t,
        {
            let logger = indexed_name(log_name, t);
            threads.push(R2PerThread { thread: t, ctrl2fwd: false, poll_fds: Vec::new(), logger });
            t = t + 1;
        }
        R2 {
            counters: String::from_str(counter_name),
            log_data,
            log_size,
            nthreads,
            threads,
            dpdk: DpdkCfg::new(),
        }
    }

    /// The number of forwarding threads.
    pub fn nthreads(&self) -> (n: usize)
        ensures
            n == self.spec_nthreads(),
    {
        self.nthreads
    }

    /// The name of the counters.
    pub fn counters(&self) -> (name: &str)
        ensures
            name@ == self.spec_counters(),
    {
        self.counters.as_str()
    }

    /// The size of a log entry and the number of entries of each logger.
    pub fn log_shape(&self) -> (shape: (usize, usize))
        ensures
            shape == self.spec_log_shape(),
    {
        (self.log_data, self.log_size)
    }

    /// How the polling backend is set up.
    pub fn dpdk(&self) -> (cfg: DpdkCfg)
        ensures
            cfg == self.spec_dpdk(),
    {
        self.dpdk
    }

    /// The name of the logger of the thread at place `thread`.
    pub fn logger(&self, thread: usize) -> (name: &str)
        requires
            self.wf(),
            thread < self.spec_nthreads(),
        ensures
            name@ == self.loggers()[thread as int],
    {
        self.threads[thread].logger.as_str()
    }

    /// Whether the thread at place `thread` has a channel.
    pub fn is_connected(&self, thread: usize) -> (yes: bool)
        requires
            self.wf(),
            thread < self.spec_nthreads(),
        ensures
            yes == self.connected()[thread as int],
    {
        self.threads[thread].ctrl2fwd
    }

    /// Reads the configuration `text`, as `config::parse_cfg` does, into
    /// the setup of the polling backend. Nothing else changes.
    pub fn parse_cfg(&mut self, text: &str) -> (r: Result<(), CfgError>)
        requires
            old(self).wf(),
        ensures
            final(self).wf(),
            final(self).same_threads(old(self)),
            match ini_items(text@) {
                None => r.is_ok() && final(self).spec_dpdk() == old(self).spec_dpdk(),
                Some(items) => match apply_result(old(self).spec_dpdk(), false, items) {
                    Ok(next) => r.is_ok() && final(self).spec_dpdk() == next,
                    Err(e) => r.is_err() && r.unwrap_err()@ == e
                        && final(self).spec_dpdk() == old(self).spec_dpdk(),
                },
            },
    {
        let mut cfg = self.dpdk;
        let r = crate::config::parse_cfg(&mut cfg, text);
        self.dpdk = cfg;
        proof {
            self.lemma_same(old(self));
        }
        r
    }

    /// Both contexts know the same of every thread.
    pub open spec fn same_threads(&self, other: &Self) -> bool {
        &&& self.spec_nthreads() == other.spec_nthreads()
        &&& self.spec_counters() == other.spec_counters()
        &&& self.spec_log_shape() == other.spec_log_shape()
        &&& self.loggers() == other.loggers()
        &&& self.connected() == other.connected()
        &&& self.poll_fds() == other.poll_fds()
    }

    proof fn lemma_same(&self, other: &Self)
        requires
            self.threads == other.threads,
            self.nthreads == other.nthreads,
            self.counters == other.counters,
            self.log_data == other.log_data,
            self.log_size == other.log_size,
        ensures
            self.same_threads(other),
    {
        assert(self.loggers() =~= other.loggers());
        assert(self.connected() =~= other.connected());
        assert(self.poll_fds() =~= other.poll_fds());
    }

    /// Adds `fd` to the descriptors that the thread at place `thread` is to
    /// watch from its start. Returns whether there is such a thread; if
    /// not, nothing changes.
    pub fn add_poll_fd(&mut self, thread: usize, fd: i32) -> (ok: bool)
        requires
            old(self).wf(),
        ensures
            final(self).wf(),
            ok == (thread < old(self).spec_nthreads()),
            final(self).spec_nthreads() == old(self).spec_nthreads(),
            final(self).spec_counters() == old(self).spec_counters(),
            final(self).spec_log_shape() == old(self).spec_log_shape(),
            final(self).spec_dpdk() == old(self).spec_dpdk(),
            final(self).loggers() == old(self).loggers(),
            final(self).connected() == old(self).connected(),
            final(self).poll_fds() == if ok {
                old(self).poll_fds().update(
                    thread as int,
                    old(self).poll_fds()[thread as int].push(fd),
                )
            } else {
                old(self).poll_fds()
            },
    {
        if thread >= self.nthreads {
            proof {
                self.lemma_same(old(self));
            }
            return false;
        }
        let ghost before = self.threads@[thread as int].poll_fds@;
        self.threads[thread].poll_fds.push(fd);
        proof {
            assert(self.loggers() =~= old(self).loggers());
            assert(self.connected() =~= old(self).connected());
            assert(self.poll_fds() =~= old(self).poll_fds().update(thread as int, before.push(fd)));
        }
        true
    }

    /// What is to be done to send `msg` to the thread at place `idx`
    /// alone: nothing, if there is no such thread; else the message itself,
    /// if the thread has a channel, and a write to its wake-up descriptor.
    /// A thread without a channel is woken all the same, and the message is
    /// dropped without a word.
    pub fn unicast(&self, msg: R2Msg, idx: usize) -> (r: Option<Delivery>)
        requires
            self.wf(),
        ensures
            r.is_some() == (idx < self.spec_nthreads()),
            match r {
                Some(d) => d.thread == idx && d.msg == if self.connected()[idx as int] {
                    Some(msg)
                } else {
                    None
                },
                None => true,
            },
    {
        if idx >= self.nthreads {
            return None;
        }
        if self.threads[idx].ctrl2fwd {
            Some(Delivery { thread: idx, msg: Some(msg) })
        } else {
            Some(Delivery { thread: idx, msg: None })
        }
    }

    /// What a broadcast of `msg` hands to the thread at place `t`: an
    /// instance of the message that asks the same and is bound to that
    /// thread's logger and to counters of its own, if the thread has a
    /// channel; and in any case a write to its wake-up descriptor.
    pub open spec fn spec_delivery(&self, msg: R2MsgView, t: int) -> DeliveryView {
        DeliveryView {
            thread: t as usize,
            msg: if self.connected()[t] {
                Some(R2Msg::spec_clone(msg, t as usize, self.loggers()[t]))
            } else {
                None
            },
        }
    }

    /// What is to be done to send `msg` to every forwarding thread: for
    /// each thread, in the order of the threads, what `spec_delivery` says.
    /// No two threads get the same instance.
    pub fn broadcast(&self, msg: R2Msg) -> (r: Vec<Delivery>)
        requires
            self.wf(),
        ensures
            r@.len() == self.spec_nthreads(),
            forall|t: int|
                0 <= t < r@.len() ==> (#[trigger] r@[t])@ == self.spec_delivery(msg@, t),
    {
        let mut out: Vec<Delivery> = Vec::new();
        let mut t: usize = 0;
        while t < self.nthreads
            invariant
                t <= self.nthreads,
                self.wf(),
                out@.len() == t,
                forall|i: int| 0 <= i < t ==> (#[trigger] out@[i])@ == self.spec_delivery(msg@, i),
            decreases self.nthreads - t,
        {
            let per = &self.threads[t];
            let copy = if per.ctrl2fwd {
                Some(msg.clone(t, per.logger.as_str()))
            } else {
                None
            };
            out.push(Delivery { thread: t, msg: copy });
            t = t + 1;
        }
        out
    }

    /// Sets up the forwarding thread at place `thread` to run `g`: from
    /// now on the thread has a channel for messages, and it starts out
    /// watching the descriptors known for it. It is run by the polling
    /// backend if that is switched on. Where there is no such thread, the
    /// graph comes back and nothing changes.
    pub fn create_thread<N: Node, P: PacketPool>(&mut self, g: Graph<N, P>, thread: usize) -> (r:
        Result<Forwarder<N, P>, Graph<N, P>>)
        requires
            old(self).wf(),
        ensures
            final(self).wf(),
            final(self).spec_nthreads() == old(self).spec_nthreads(),
            final(self).spec_counters() == old(self).spec_counters(),
            final(self).spec_log_shape() == old(self).spec_log_shape(),
            final(self).spec_dpdk() == old(self).spec_dpdk(),
            final(self).loggers() == old(self).loggers(),
            final(self).poll_fds() == old(self).poll_fds(),
            match r {
                Ok(f) => {
                    &&& thread < old(self).spec_nthreads()
                    &&& final(self).connected() == old(self).connected().update(thread as int, true)
                    &&& f.spec_graph() == g
                    &&& f.spec_thread() == thread
                    &&& f.spec_backend() == old(self).spec_backend()
                    &&& f.spec_phase() == Phase::Draining
                    &&& f.spec_poll_fds() == old(self).poll_fds()[thread as int]
                    &&& f.spec_astray() == 0
                },
                Err(back) => {
                    &&& thread >= old(self).spec_nthreads()
                    &&& back == g
                    &&& final(self).connected() == old(self).connected()
                },
            },
    {
        if thread >= self.nthreads {
            proof {
                self.lemma_same(old(self));
            }
            return Err(g);
        }
        self.threads[thread].ctrl2fwd = true;
        let fds = copy_fds(&self.threads[thread].poll_fds);
        let backend = if self.dpdk.on {
            Backend::Polling
        } else {
            Backend::Epoll
        };
        proof {
            assert(self.loggers() =~= old(self).loggers());
            assert(self.poll_fds() =~= old(self).poll_fds());
            assert(self.connected() =~= old(self).connected().update(thread as int, true));
        }
        Ok(Forwarder::new(thread, g, fds, backend))
    }

    /// Sets up every forwarding thread to run a graph of the shape of
    /// `graph`. The threads from place 1 on get, in their order, a copy of
    /// the graph made for them, each over a new pool of `DEF_PKTS` packets
    /// and `DEF_PARTS` particles of `DEF_PARTICLE_SZ` bytes; the thread at
    /// place 0 comes last and gets `graph` itself. Without any thread
    /// nothing is set up.
    pub fn launch_threads<N: Node>(&mut self, graph: Graph<N, PktsHeap>) -> (r: Vec<
        Forwarder<N, PktsHeap>,
    >)
        requires
            old(self).wf(),
            graph.wf(),
        ensures
            final(self).wf(),
            final(self).spec_nthreads() == old(self).spec_nthreads(),
            final(self).spec_counters() == old(self).spec_counters(),
            final(self).spec_log_shape() == old(self).spec_log_shape(),
            final(self).spec_dpdk() == old(self).spec_dpdk(),
            final(self).loggers() == old(self).loggers(),
            final(self).poll_fds() == old(self).poll_fds(),
            final(self).connected().len() == old(self).spec_nthreads(),
            forall|t: int| 0 <= t < old(self).spec_nthreads()
                ==> #[trigger] final(self).connected()[t],
            r@.len() == old(self).spec_nthreads(),
            forall|k: int|
                0 <= k < r@.len() ==> {
                    let t = if k == r@.len() - 1 {
                        0
                    } else {
                        k + 1
                    };
                    &&& (#[trigger] r@[k]).spec_thread() == t
                    &&& r@[k].spec_backend() == old(self).spec_backend()
                    &&& r@[k].spec_phase() == Phase::Draining
                    &&& r@[k].spec_poll_fds() == old(self).poll_fds()[t]
                    &&& r@[k].spec_graph().wf()
                    &&& r@[k].spec_graph().spec_thread() == if t == 0 {
                        graph.spec_thread()
                    } else {
                        t as nat
                    }
                    &&& r@[k].spec_graph().names() == graph.names()
                    &&& r@[k].spec_graph().next_names() == graph.next_names()
                    &&& r@[k].spec_graph().edges() == graph.edges()
                    &&& r@[k].spec_graph().is_finalized() == graph.is_finalized()
                    &&& t == 0 ==> r@[k].spec_graph() == graph
                    &&& t != 0 ==> r@[k].spec_graph().pool()@ == fresh_pool() && total(
                        r@[k].spec_graph().pending(),
                    ) == 0
                },
    {
        let mut out: Vec<Forwarder<N, PktsHeap>> = Vec::new();
        let n = self.nthreads;
        proof {
            self.lemma_same(old(self));
            self.lemma_wf();
        }
        if n == 0 {
            return out;
        }
        let mut t: usize = 1;
        while t < n
            invariant
                1 <= t <= n,
                n == old(self).spec_nthreads(),
                graph.wf(),
                self.wf(),
                self.spec_nthreads() == n,
                self.spec_counters() == old(self).spec_counters(),
                self.spec_log_shape() == old(self).spec_log_shape(),
                self.spec_dpdk() == old(self).spec_dpdk(),
                self.loggers() == old(self).loggers(),
                self.poll_fds() == old(self).poll_fds(),
                self.connected().len() == n,
                forall|i: int| 1 <= i < t ==> #[trigger] self.connected()[i],
                out@.len() == t - 1,
                forall|k: int|
                    0 <= k < out@.len() ==> {
                        &&& (#[trigger] out@[k]).spec_thread() == k + 1
                        &&& out@[k].spec_backend() == old(self).spec_backend()
                        &&& out@[k].spec_phase() == Phase::Draining
                        &&& out@[k].spec_poll_fds() == old(self).poll_fds()[k + 1]
                        &&& out@[k].spec_graph().wf()
                        &&& out@[k].spec_graph().spec_thread() == k + 1
                        &&& out@[k].spec_graph().names() == graph.names()
                        &&& out@[k].spec_graph().next_names() == graph.next_names()
                        &&& out@[k].spec_graph().edges() == graph.edges()
                        &&& out@[k].spec_graph().is_finalized() == graph.is_finalized()
                        &&& out@[k].spec_graph().pool()@ == fresh_pool()
                        &&& total(out@[k].spec_graph().pending()) == 0
                    },
            decreases n - t,
        {
            let pool = PktsHeap::new(DEF_PKTS, DEF_PARTS, DEF_PARTICLE_SZ).unwrap();
            let g = graph.clone(t, pool);
            match self.create_thread(g, t) {
                Ok(f) => {
                    out.push(f);
                },
                Err(_) => {},
            }
            t = t + 1;
        }
        match self.create_thread(graph, 0) {
            Ok(f) => {
                out.push(f);
            },
            Err(_) => {},
        }
        out
    }

    /// The backend that runs the forwarding threads: the polling one if it
    /// is switched on.
    pub open spec fn spec_backend(&self) -> Backend {
        if self.spec_dpdk().on {
            Backend::Polling
        } else {
            Backend::Epoll
        }
    }
}

/// The counts of the pool that a thread is given at its start.
pub open spec fn fresh_pool() -> PoolView {
    PoolView {
        free_packets: DEF_PKTS as nat,
        free_particles: DEF_PARTS as nat,
        num_packets: DEF_PKTS as nat,
        num_particles: DEF_PARTS as nat,
        particle_sz: DEF_PARTICLE_SZ as nat,
    }
}

/// A copy of `fds`.
fn copy_fds(fds: &Vec<i32>) -> (copy: Vec<i32>)
    ensures
        copy@ == fds@,
{
    let mut copy: Vec<i32> = Vec::new();
    let mut i: usize = 0;
    while i < fds.len()
        invariant
            i <= fds@.len(),
            copy@ == fds@.take(i as int),
        decreases fds@.len() - i,
    {
        copy.push(fds[i]);
        assert(copy@ =~= fds@.take(i + 1));
        i = i + 1;
    }
    assert(fds@.take(fds@.len() as int) =~= fds@);
    copy
}

} // verus!
