//! The forwarding thread: what it does in turn, and when it sleeps.

use vstd::prelude::*;
use crate::graph::{pass_step, total, Graph, GraphState, Node};
use crate::msg::{Ctrl, CtrlView, R2Msg};
use crate::packet::Packet;
use crate::particle::reserved;
use crate::pool::PacketPool;
use crate::text::decimal;
use crate::text::decimal_string;

verus! {

/// How a forwarding thread is run.
#[derive(Clone, Copy, Debug, PartialEq, Eq, Structural)]
pub enum Backend {
    /// A thread that sleeps, when it has nothing to do, until its wake-up
    /// descriptor or one of its interfaces has something for it.
    Epoll,
    /// A loop on a core of its own, which never sleeps.
    Polling,
}

/// What a forwarding thread is doing.
#[derive(Clone, Copy, Debug, PartialEq, Eq, Structural)]
pub enum Phase {
    /// It runs passes of its graph and looks for control messages.
    Draining,
    /// It sleeps until it is woken.
    Idle,
}

/// What happened to a forwarding thread.
#[derive(Clone, Copy, Debug, PartialEq, Eq, Structural)]
pub enum Event {
    /// It ran a pass and then looked for control messages: whether packets
    /// still wait in the graph, and whether there was a message.
    Pass { more_work: bool, ctrl: bool },
    /// Its sleep ended.
    Woken,
}

/// What a forwarding thread does next.
#[derive(Clone, Copy, Debug, PartialEq, Eq, Structural)]
pub enum Action {
    /// Another pass, and another look for control messages.
    Run,
    /// Sleep until woken, however long that takes.
    Wait,
}

/// What a forwarding thread is doing, and does next, after `event`. It
/// goes on while packets wait or a control message came. With neither, a
/// thread of the `Epoll` backend goes to sleep; one of the `Polling`
/// backend goes on all the same. A thread that was woken goes on.
pub open spec fn spec_next(backend: Backend, event: Event) -> (Phase, Action) {
    match event {
        Event::Woken => (Phase::Draining, Action::Run),
        Event::Pass { more_work, ctrl } => if more_work || ctrl || backend == Backend::Polling {
            (Phase::Draining, Action::Run)
        } else {
            (Phase::Idle, Action::Wait)
        },
    }
}

/// What a forwarding thread is doing, and does next, after `event`.
pub fn next(backend: Backend, event: Event) -> (r: (Phase, Action))
    ensures
        r == spec_next(backend, event),
{
    match event {
        Event::Woken => (Phase::Draining, Action::Run),
        Event::Pass { more_work, ctrl } => {
            if more_work || ctrl {
                (Phase::Draining, Action::Run)
            } else {
                match backend {
                    Backend::Polling => (Phase::Draining, Action::Run),
                    Backend::Epoll => (Phase::Idle, Action::Wait),
                }
            }
        },
    }
}

/// The descriptors watched after the message `msg`, when `fds` were
/// watched before: a descriptor that the message asks to watch joins the
/// end of the list, unless it is in the list already.
pub open spec fn watch_one(fds: Seq<i32>, msg: R2Msg) -> Seq<i32> {
    match msg@.ctrl {
        CtrlView::EpollAdd(fd) => if fds.contains(fd) {
            fds
        } else {
            fds.push(fd)
        },
        CtrlView::Node(_, _) => fds,
    }
}

/// The descriptors watched after the messages `msgs`, taken in their
/// order, when `fds` were watched before.
pub open spec fn spec_watch(fds: Seq<i32>, msgs: Seq<R2Msg>) -> Seq<i32>
    decreases msgs.len(),
{
    if msgs.len() == 0 {
        fds
    } else {
        watch_one(spec_watch(fds, msgs.drop_last()), msgs.last())
    }
}

/// The name of the forwarding thread `thread`.
pub open spec fn spec_thread_name(thread: nat) -> Seq<char> {
    "r2-"@ + decimal(thread)
}

/// The name of the forwarding thread `thread`.
pub fn thread_name(thread: usize) -> (name: String)
    ensures
        name@ == spec_thread_name(thread as nat),
{
    let mut name = String::from_str("r2-");
    let digits = decimal_string(thread);
    name.append(digits.as_str());
    name
}

/// Whether `fd` is in `fds`.
pub fn watched(fds: &Vec<i32>, fd: i32) -> (found: bool)
    ensures
        found == fds@.contains(fd),
{
    let mut i: usize = 0;
    while i < fds.len()
        invariant
            i <= fds@.len(),
            forall|k: int| 0 <= k < i ==> fds@[k] != fd,
        decreases fds@.len() - i,
    {
        if fds[i] == fd {
            return true;
        }
        i = i + 1;
    }
    false
}

/// One forwarding thread: its graph and the descriptors that it watches
/// for input. It is driven from outside, one turn at a time: whoever runs
/// the thread collects the control messages that have come, calls `turn`,
/// and does what it says.
pub struct Forwarder<N, P> {
    graph: Graph<N, P>,
    thread: usize,
    backend: Backend,
    phase: Phase,
    poll_fds: Vec<i32>,
    astray: u64,
}

impl<N: Node, P: PacketPool> Forwarder<N, P> {
    /// The thread's own graph.
    pub closed spec fn spec_graph(&self) -> Graph<N, P> {
        self.graph
    }

    /// The thread's place among the forwarding threads.
    pub closed spec fn spec_thread(&self) -> nat {
        self.thread as nat
    }

    /// How the thread is run.
    pub closed spec fn spec_backend(&self) -> Backend {
        self.backend
    }

    /// What the thread is doing.
    pub closed spec fn spec_phase(&self) -> Phase {
        self.phase
    }

    /// The descriptors that the thread watches for input.
    pub closed spec fn spec_poll_fds(&self) -> Seq<i32> {
        self.poll_fds@
    }

    /// The messages that named a node which the graph does not have.
    pub closed spec fn spec_astray(&self) -> u64 {
        self.astray
    }

    /// The thread `thread`, about to run `graph` and to watch `poll_fds`.
    pub fn new(thread: usize, graph: Graph<N, P>, poll_fds: Vec<i32>, backend: Backend) -> (f: Self)
        ensures
            f.spec_graph() == graph,
            f.spec_thread() == thread,
            f.spec_backend() == backend,
            f.spec_phase() == Phase::Draining,
            f.spec_poll_fds() == poll_fds@,
            f.spec_astray() == 0,
    {
        Forwarder { graph, thread, backend, phase: Phase::Draining, poll_fds, astray: 0 }
    }

    /// The thread's place among the forwarding threads.
    pub fn thread(&self) -> (t: usize)
        ensures
            t == self.spec_thread(),
    {
        self.thread
    }

    /// How the thread is run.
    pub fn backend(&self) -> (b: Backend)
        ensures
            b == self.spec_backend(),
    {
        self.backend
    }

    /// What the thread is doing.
    pub fn phase(&self) -> (p: Phase)
        ensures
            p == self.spec_phase(),
    {
        self.phase
    }

    /// The descriptors that the thread watches for input.
    pub fn poll_fds(&self) -> (fds: &Vec<i32>)
        ensures
            fds@ == self.spec_poll_fds(),
    {
        &self.poll_fds
    }

    /// The messages that named a node which the graph does not have.
    pub fn astray(&self) -> (n: u64)
        ensures
            n == self.spec_astray(),
    {
        self.astray
    }

    /// The thread's own graph.
    pub fn graph(&self) -> (g: &Graph<N, P>)
        ensures
            *g == self.spec_graph(),
    {
        &self.graph
    }

    /// Hands out a packet from the pool of the thread's graph.
    pub fn pkt(&mut self, headroom: usize) -> (r: Option<Packet>)
        requires
            old(self).spec_graph().wf(),
        ensures
            final(self).spec_graph().wf(),
            final(self).spec_graph().same_shape(&old(self).spec_graph()),
            final(self).spec_graph().queues() == old(self).spec_graph().queues(),
            final(self).spec_graph().counters() == old(self).spec_graph().counters(),
            final(self).same_thread(old(self)),
            r.is_some() == (old(self).spec_graph().pool()@.free_packets > 0
                && old(self).spec_graph().pool()@.free_particles > 0),
            match r {
                Some(p) => {
                    &&& p.wf()
                    &&& p@ == Seq::<u8>::empty()
                    &&& p.chunks().len() == 1
                    &&& p.spec_headroom() == reserved(
                        headroom as nat,
                        old(self).spec_graph().pool()@.particle_sz,
                    )
                    &&& p.spec_particle_sz() == old(self).spec_graph().pool()@.particle_sz
                    &&& final(self).spec_graph().pool()@ == old(self).spec_graph().pool()@.took(
                        1,
                        1,
                    )
                },
                None => final(self).spec_graph().pool()@ == old(self).spec_graph().pool()@,
            },
    {
        self.graph.pkt(headroom)
    }

    /// Puts `pkt` at the back of the queue of the node at place `node` of
    /// the thread's graph. Where the graph cannot take it, it comes back
    /// and nothing changes.
    pub fn enqueue(&mut self, node: usize, pkt: Packet) -> (r: Result<(), Packet>)
        requires
            old(self).spec_graph().wf(),
            pkt.wf(),
        ensures
            final(self).spec_graph().wf(),
            final(self).spec_graph().same_shape(&old(self).spec_graph()),
            final(self).spec_graph().counters() == old(self).spec_graph().counters(),
            final(self).spec_graph().pool() == old(self).spec_graph().pool(),
            final(self).same_thread(old(self)),
            match r {
                Ok(_) => old(self).spec_graph().takes(node as int)
                    && final(self).spec_graph().queues() == old(self).spec_graph().queues().update(
                    node as int,
                    old(self).spec_graph().queues()[node as int].push(pkt),
                ),
                Err(back) => !old(self).spec_graph().takes(node as int) && back == pkt
                    && *final(self) == *old(self),
            },
    {
        self.graph.enqueue(node, pkt)
    }

    /// Both are the same thread, run the same way, in the same phase, and
    /// watch the same descriptors.
    pub open spec fn same_thread(&self, other: &Self) -> bool {
        &&& self.spec_thread() == other.spec_thread()
        &&& self.spec_backend() == other.spec_backend()
        &&& self.spec_phase() == other.spec_phase()
        &&& self.spec_poll_fds() == other.spec_poll_fds()
        &&& self.spec_astray() == other.spec_astray()
    }

    /// Does what one control message asks. A descriptor to watch joins the
    /// thread's list, unless it is there already, and is returned for
    /// whoever runs the thread to start watching it. An instruction for a
    /// node goes to the node of that name; where the graph has none, the
    /// message is counted and dropped. The graph keeps its shape, its
    /// packets and its counts.
    pub fn control(&mut self, msg: &R2Msg) -> (fd: Option<i32>)
        requires
            old(self).spec_graph().wf(),
        ensures
            final(self).spec_graph().wf(),
            final(self).spec_graph().same_shape(&old(self).spec_graph()),
            final(self).spec_graph().queues() == old(self).spec_graph().queues(),
            final(self).spec_graph().counters() == old(self).spec_graph().counters(),
            final(self).spec_thread() == old(self).spec_thread(),
            final(self).spec_backend() == old(self).spec_backend(),
            final(self).spec_phase() == old(self).spec_phase(),
            final(self).spec_poll_fds() == watch_one(old(self).spec_poll_fds(), *msg),
            fd == match msg@.ctrl {
                CtrlView::EpollAdd(fd) => if old(self).spec_poll_fds().contains(fd) {
                    None
                } else {
                    Some(fd)
                },
                CtrlView::Node(_, _) => None,
            },
            final(self).spec_graph().pool() == old(self).spec_graph().pool(),
            match msg@.ctrl {
                CtrlView::Node(node, _) => if old(self).spec_graph().names().contains(node) {
                    let at = old(self).spec_graph().place(node);
                    &&& final(self).spec_graph().clients()
                        == old(self).spec_graph().clients().update(
                        at,
                        final(self).spec_graph().clients()[at],
                    )
                    &&& old(self).spec_graph().clients()[at].hears(
                        *msg,
                        final(self).spec_graph().clients()[at],
                    )
                } else {
                    final(self).spec_graph() == old(self).spec_graph()
                },
                CtrlView::EpollAdd(_) => final(self).spec_graph() == old(self).spec_graph(),
            },
            final(self).spec_astray() == match msg@.ctrl {
                CtrlView::Node(node, _) => if old(self).spec_graph().names().contains(node) {
                    old(self).spec_astray()
                } else {
                    crate::graph::bumped(old(self).spec_astray(), 1)
                },
                CtrlView::EpollAdd(_) => old(self).spec_astray(),
            },
    {
        match &msg.ctrl {
            Ctrl::EpollAdd(fd) => {
                if watched(&self.poll_fds, *fd) {
                    None
                } else {
                    self.poll_fds.push(*fd);
                    Some(*fd)
                }
            },
            Ctrl::Node(node, _) => {
                match self.graph.index(node.as_str()) {
                    Some(at) => {
                        self.graph.control(at, msg);
                    },
                    None => {
                        self.astray = self.astray.saturating_add(1);
                    },
                }
                None
            },
        }
    }

    /// One turn of the thread: a pass of the graph, then the control
    /// messages `msgs`, which are those that came since the last turn, in
    /// their order. Returns what the thread does next, and the descriptors
    /// that it has to start watching. The thread goes to sleep only when no
    /// packet waits after the pass and no message came.
    pub fn turn(&mut self, msgs: &Vec<R2Msg>) -> (r: (Action, Vec<i32>))
        requires
            old(self).spec_graph().wf(),
        ensures
            final(self).spec_graph().wf(),
            final(self).spec_graph().same_shape(&old(self).spec_graph()),
            exists|ran: GraphState<N>|
                #[trigger] old(self).spec_graph().passes(
                    old(self).spec_graph().queues(),
                    old(self).spec_graph().state(),
                    old(self).spec_graph().pending(),
                    total(old(self).spec_graph().pending()),
                    ran,
                ) && final(self).spec_graph().queues() == ran.queues
                    && final(self).spec_graph().counters() == ran.counters
                        && final(self).spec_graph().pool()@
                    == ran.pool,
            pass_step(
                old(self).spec_graph().edges(),
                old(self).spec_graph().pending(),
                final(self).spec_graph().pending(),
            ),
            final(self).spec_thread() == old(self).spec_thread(),
            final(self).spec_backend() == old(self).spec_backend(),
            (final(self).spec_phase(), r.0) == spec_next(
                old(self).spec_backend(),
                Event::Pass {
                    more_work: total(final(self).spec_graph().pending()) > 0,
                    ctrl: msgs@.len() > 0,
                },
            ),
            final(self).spec_poll_fds() == spec_watch(old(self).spec_poll_fds(), msgs@),
            final(self).spec_poll_fds() == old(self).spec_poll_fds() + r.1@,
    {
        let (more_work, _) = self.graph.run();
        let ghost ran = self.graph;
        let mut fresh: Vec<i32> = Vec::new();
        let mut i: usize = 0;
        assert(msgs@.take(0) =~= Seq::<R2Msg>::empty());
        while i < msgs.len()
            invariant
                i <= msgs@.len(),
                self.graph.wf(),
                self.graph.same_shape(&ran),
                self.graph.queues() == ran.queues(),
                self.graph.counters() == ran.counters(),
                self.graph.pool() == ran.pool(),
                self.thread == old(self).thread,
                self.backend == old(self).backend,
                self.poll_fds@ == spec_watch(old(self).poll_fds@, msgs@.take(i as int)),
                self.poll_fds@ == old(self).poll_fds@ + fresh@,
            decreases msgs@.len() - i,
        {
            match self.control(&msgs[i]) {
                Some(fd) => {
                    fresh.push(fd);
                },
                None => {},
            }
            proof {
                let step = msgs@.take(i + 1);
                assert(step.drop_last() =~= msgs@.take(i as int));
                assert(step.last() == msgs@[i as int]);
                assert(self.poll_fds@ =~= old(self).poll_fds@ + fresh@);
            }
            i = i + 1;
        }
        assert(msgs@.take(msgs@.len() as int) =~= msgs@);
        assert(self.graph.pending() =~= ran.pending());
        let (phase, action) = next(
            self.backend,
            Event::Pass { more_work, ctrl: msgs.len() > 0 },
        );
        self.phase = phase;
        (action, fresh)
    }

    /// The thread's sleep ended: it goes on with its turns.
    pub fn woken(&mut self) -> (action: Action)
        ensures
            final(self).spec_graph() == old(self).spec_graph(),
            final(self).spec_thread() == old(self).spec_thread(),
            final(self).spec_backend() == old(self).spec_backend(),
            final(self).spec_poll_fds() == old(self).spec_poll_fds(),
            (final(self).spec_phase(), action) == spec_next(
                old(self).spec_backend(),
                Event::Woken,
            ),
    {
        let (phase, action) = next(self.backend, Event::Woken);
        self.phase = phase;
        action
    }
}

} // verus!
