//! The processing graph: named nodes, joined by named edges that are
//! resolved once, and run in scheduling passes.

use vstd::prelude::*;
use std::collections::VecDeque;
use std::mem::swap;
use crate::msg::R2Msg;
use crate::packet::Packet;
use crate::particle::reserved;
use crate::pool::{PacketPool, PoolView};
use crate::text::views;

verus! {

/// One output of a node: a packet, and the place, among the node's next
/// names, of the edge it leaves on.
pub struct Output {
    pub edge: usize,
    pub pkt: Packet,
}

/// What a processing stage offers to the graph that runs it.
pub trait Node: Sized {
    /// The stage's own state is consistent.
    spec fn inv(&self) -> bool;

    /// The name under which the stage is registered.
    spec fn spec_name(&self) -> Seq<char>;

    /// The names of the stages that it sends packets on to, in order.
    spec fn spec_next_names(&self) -> Seq<Seq<char>>;

    /// The name under which the stage is registered.
    fn name(&self) -> (name: String)
        requires
            self.inv(),
        ensures
            name@ == self.spec_name(),
    ;

    /// The names of the stages that it sends packets on to, in order.
    fn next_names(&self) -> (names: Vec<String>)
        requires
            self.inv(),
        ensures
            views(names@) == self.spec_next_names(),
    ;

    /// A stage of the same name and next names for the forwarding thread
    /// `thread`, with a state of its own.
    fn clone_for(&self, thread: usize) -> (copy: Self)
        requires
            self.inv(),
        ensures
            copy.inv(),
            copy.spec_name() == self.spec_name(),
            copy.spec_next_names() == self.spec_next_names(),
    ;

    /// What the stage may do with a message from the control plane:
    /// whether, given `msg`, it can become `after`.
    spec fn hears(&self, msg: R2Msg, after: Self) -> bool;

    /// Takes a message from the control plane. The stage stays what it is:
    /// a message changes neither its name nor its edges.
    fn control(&mut self, msg: &R2Msg)
        requires
            old(self).inv(),
        ensures
            old(self).hears(*msg, *final(self)),
            final(self).inv(),
            final(self).spec_name() == old(self).spec_name(),
            final(self).spec_next_names() == old(self).spec_next_names(),
    ;

    /// What the stage may do with one packet: whether, handed `pkt` while
    /// the pool's counts are `pool`, it can become `after`, leave the pool's
    /// counts at `pool_after`, and send on `out`.
    spec fn handles(
        &self,
        pkt: Packet,
        pool: PoolView,
        after: Self,
        pool_after: PoolView,
        out: Seq<Output>,
    ) -> bool;

    /// Takes one packet and puts into `out`, which it finds empty, what
    /// leaves the stage because of it: no packet, one or several. A packet
    /// that does not leave goes back to `pool`, or stays with the stage. A
    /// stage that cannot make sense of a packet drops it and goes on.
    fn process<P: PacketPool>(&mut self, pkt: Packet, pool: &mut P, out: &mut VecDeque<Output>)
        requires
            old(self).inv(),
            old(pool).wf(),
            pkt.wf(),
            old(out)@.len() == 0,
        ensures
            old(self).handles(pkt, old(pool)@, *final(self), final(pool)@, final(out)@),
            final(self).inv(),
            final(self).spec_name() == old(self).spec_name(),
            final(self).spec_next_names() == old(self).spec_next_names(),
            final(pool).wf(),
            final(pool)@.same_limits(old(pool)@),
            forall|k: int| 0 <= k < final(out)@.len() ==> (#[trigger] final(out)@[k]).pkt.wf(),
    ;
}

/// What the graph counts for each node.
#[derive(Clone, Copy, Debug, PartialEq, Eq)]
pub struct GnodeCntrs {
    /// The packets that were handed to the node.
    pub dispatched: u64,
    /// The outputs of the node that went on to a next node.
    pub forwarded: u64,
    /// The outputs of the node that named no edge of it, and were let go.
    pub dropped: u64,
}

impl GnodeCntrs {
    /// Counters that have counted nothing yet.
    pub fn new() -> (c: GnodeCntrs)
        ensures
            c == (GnodeCntrs { dispatched: 0, forwarded: 0, dropped: 0 }),
    {
        GnodeCntrs { dispatched: 0, forwarded: 0, dropped: 0 }
    }
}

/// What a node is registered with: its name, the names of its edges, and
/// the counters that the graph keeps for it.
pub struct GnodeInit {
    pub name: String,
    pub next_names: Vec<String>,
    pub cntrs: GnodeCntrs,
}

impl GnodeInit {
    /// What `node` is registered with: the name and the next names that it
    /// gives itself, and fresh counters.
    pub fn of<N: Node>(node: &N) -> (init: GnodeInit)
        requires
            node.inv(),
        ensures
            init.name@ == node.spec_name(),
            views(init.next_names@) == node.spec_next_names(),
            init.cntrs == (GnodeCntrs { dispatched: 0, forwarded: 0, dropped: 0 }),
    {
        GnodeInit { name: node.name(), next_names: node.next_names(), cntrs: GnodeCntrs::new() }
    }
}

/// A copy of `names`.
pub fn copy_names(names: &Vec<String>) -> (copy: Vec<String>)
    ensures
        copy@ == names@,
{
    let mut copy: Vec<String> = Vec::new();
    let mut i: usize = 0;
    while i < names.len()
        invariant
            i <= names@.len(),
            copy@ == names@.take(i as int),
        decreases names@.len() - i,
    {
        copy.push(names[i].clone());
        assert(copy@ =~= names@.take(i + 1));
        i = i + 1;
    }
    assert(names@.take(names@.len() as int) =~= names@);
    copy
}

/// A copy of `places`.
fn copy_places(places: &Vec<usize>) -> (copy: Vec<usize>)
    ensures
        copy@ == places@,
{
    let mut copy: Vec<usize> = Vec::new();
    let mut i: usize = 0;
    while i < places.len()
        invariant
            i <= places@.len(),
            copy@ == places@.take(i as int),
        decreases places@.len() - i,
    {
        copy.push(places[i]);
        assert(copy@ =~= places@.take(i + 1));
        i = i + 1;
    }
    assert(places@.take(places@.len() as int) =~= places@);
    copy
}

/// Why a graph cannot be built as asked.
#[derive(Clone, Copy, Debug, PartialEq, Eq)]
pub enum GraphError {
    /// A node of that name is registered already.
    Duplicate,
    /// The graph's edges are resolved: it takes no more nodes.
    Finalized,
    /// The edge at place `edge` of node `node` names no node.
    Unresolved { node: usize, edge: usize },
}

/// A node as the graph holds it.
pub struct Gnode<N> {
    client: N,
    name: String,
    next_names: Vec<String>,
    next_nodes: Vec<usize>,
    input: VecDeque<Packet>,
    cntrs: GnodeCntrs,
}

/// The sum of the numbers in `counts`.
pub open spec fn total(counts: Seq<nat>) -> nat
    decreases counts.len(),
{
    if counts.len() == 0 {
        0
    } else {
        total(counts.drop_last()) + counts.last()
    }
}

/// Changing one number changes the sum by as much.
pub proof fn lemma_total_update(counts: Seq<nat>, i: int, v: nat)
    requires
        0 <= i < counts.len(),
    ensures
        total(counts.update(i, v)) == total(counts) - counts[i] + v,
        total(counts) >= counts[i],
    decreases counts.len(),
{
    if i == counts.len() - 1 {
        assert(counts.update(i, v).drop_last() =~= counts.drop_last());
    } else {
        lemma_total_update(counts.drop_last(), i, v);
        assert(counts.update(i, v).drop_last() =~= counts.drop_last().update(i, v));
    }
}

/// The sum is zero exactly when every number is.
pub proof fn lemma_total_zero(counts: Seq<nat>)
    ensures
        total(counts) == 0 <==> forall|i: int| 0 <= i < counts.len() ==> counts[i] == 0,
    decreases counts.len(),
{
    if counts.len() > 0 {
        lemma_total_zero(counts.drop_last());
        if total(counts) == 0 {
            assert forall|i: int| 0 <= i < counts.len() implies counts[i] == 0 by {
                if i < counts.len() - 1 {
                    assert(counts.drop_last()[i] == counts[i]);
                }
            }
        } else {
            if forall|i: int| 0 <= i < counts.len() ==> counts[i] == 0 {
                assert forall|i: int| 0 <= i < counts.drop_last().len()
                    implies counts.drop_last()[i]
                    == 0 by {
                    assert(counts.drop_last()[i] == counts[i]);
                }
                assert(counts.last() == counts[counts.len() - 1]);
            }
        }
    }
}

/// A counter after `by` more events: it stops at the largest number it
/// can hold.
pub open spec fn bumped(count: u64, by: nat) -> u64 {
    if count + by > u64::MAX {
        u64::MAX
    } else {
        (count + by) as u64
    }
}

/// What one scheduling pass can do to the numbers of waiting packets: a
/// node has packets waiting after the pass only if an edge leads to it from
/// a node that had packets waiting before the pass.
pub open spec fn pass_step(edges: Seq<Seq<int>>, before: Seq<nat>, after: Seq<nat>) -> bool {
    &&& after.len() == before.len()
    &&& edges.len() == before.len()
    &&& forall|j: int|
        0 <= j < after.len() && #[trigger] after[j] > 0 ==> exists|i: int, e: int|
            0 <= i < before.len() && before[i] > 0 && 0 <= e < edges[i].len()
                && #[trigger] edges[i][e]
                == j
}

/// Every edge leads to a node of lower rank. A graph whose nodes can be
/// ranked so has no cycle.
pub open spec fn ranked(edges: Seq<Seq<int>>, rank: Seq<nat>) -> bool {
    &&& rank.len() == edges.len()
    &&& forall|i: int, e: int|
        0 <= i < edges.len() && 0 <= e < edges[i].len() ==> 0 <= (#[trigger] edges[i][e])
            < edges.len() && rank[edges[i][e]] < rank[i]
}

/// Packets wait only at nodes of a rank below `k`.
pub open spec fn below(pending: Seq<nat>, rank: Seq<nat>, k: nat) -> bool {
    forall|i: int| 0 <= i < pending.len() && #[trigger] pending[i] > 0 ==> rank[i] < k
}

/// In a graph without cycles a pass moves the waiting packets down by at
/// least one rank, whatever the nodes do with them.
pub proof fn lemma_pass_lowers(
    edges: Seq<Seq<int>>,
    rank: Seq<nat>,
    before: Seq<nat>,
    after: Seq<nat>,
    k: nat,
)
    requires
        ranked(edges, rank),
        pass_step(edges, before, after),
        below(before, rank, k),
    ensures
        below(after, rank, if k > 0 { (k - 1) as nat } else { 0 }),
{
    assert forall|j: int| 0 <= j < after.len() && #[trigger] after[j] > 0 implies rank[j] < (if k
        > 0 {
        (k - 1) as nat
    } else {
        0
    }) by {
        let (i, e) = choose|i: int, e: int|
            0 <= i < before.len() && before[i] > 0 && 0 <= e < edges[i].len()
                && #[trigger] edges[i][e]
                == j;
        assert(rank[i] < k);
        assert(rank[edges[i][e]] < rank[i]);
    }
}

/// In a graph without cycles a burst of packets is worked off in a bounded
/// number of passes: if packets wait only at nodes of a rank below `k`,
/// and nothing is put in from outside, then after `k` passes no packet
/// waits, whatever the nodes do with the packets they are handed.
/// `states` holds the numbers of waiting packets before the first pass and
/// after each pass.
pub proof fn lemma_quiescence(
    edges: Seq<Seq<int>>,
    rank: Seq<nat>,
    states: Seq<Seq<nat>>,
    k: nat,
)
    requires
        ranked(edges, rank),
        states.len() > k,
        forall|t: int|
            0 <= t < states.len() - 1 ==> pass_step(edges, #[trigger] states[t], states[t + 1]),
        below(states[0], rank, k),
    ensures
        total(states[k as int]) == 0,
    decreases k,
{
    if k == 0 {
        lemma_total_zero(states[0]);
        assert forall|i: int| 0 <= i < states[0].len() implies states[0][i] == 0 by {
            if states[0][i] > 0 {
                assert(rank[i] < 0);
            }
        }
    } else {
        assert(pass_step(edges, states[0int], states[0int + 1]));
        lemma_pass_lowers(edges, rank, states[0], states[1], k);
        let later = states.skip(1);
        assert forall|t: int| 0 <= t < later.len() - 1 implies pass_step(
            edges,
            #[trigger] later[t],
            later[t + 1],
        ) by {
            assert(pass_step(edges, states[t + 1], states[t + 1 + 1]));
        }
        lemma_quiescence(edges, rank, later, (k - 1) as nat);
        assert(later[k - 1] == states[k as int]);
    }
}

/// A burst of packets is worked off in a bounded number of passes wherever
/// the passes cannot go on for ever: where some measure of the graph's
/// state becomes smaller with each pass after which packets still wait -
/// which is what it means that no node keeps packets going round a cycle
/// without end - a time at which no packet waits comes within one pass
/// more than the measure was at first. `pending` holds the numbers of
/// waiting packets before the first pass and after each pass, `measure`
/// the measure at those times.
pub proof fn lemma_quiescence_by_measure(pending: Seq<Seq<nat>>, measure: Seq<nat>)
    requires
        pending.len() == measure.len(),
        pending.len() > measure[0] + 1,
        forall|t: int|
            0 <= t < pending.len() - 1 && total(#[trigger] pending[t]) > 0 ==> total(
                pending[t + 1],
            ) == 0 || measure[t + 1] < measure[t],
    ensures
        exists|t: int| 0 <= t <= measure[0] + 1 && total(#[trigger] pending[t]) == 0,
    decreases measure[0],
{
    if total(pending[0]) == 0 {
    } else {
        assert(total(pending[0int + 1]) == 0 || measure[0int + 1] < measure[0]);
        if total(pending[1]) == 0 {
        } else {
            let later = pending.skip(1);
            let less = measure.skip(1);
            assert forall|t: int|
                0 <= t < later.len() - 1 && total(#[trigger] later[t]) > 0 implies total(
                later[t + 1],
            ) == 0 || less[t + 1] < less[t] by {
                assert(total(pending[t + 1]) > 0);
                assert(later[t + 1] == pending[t + 1 + 1]);
            }
            lemma_quiescence_by_measure(later, less);
            let t = choose|t: int| 0 <= t <= less[0] + 1 && total(#[trigger] later[t]) == 0;
            assert(total(pending[t + 1]) == 0);
        }
    }
}

/// Every edge leads to a node of the name it was declared with.
pub open spec fn resolved(
    names: Seq<Seq<char>>,
    next_names: Seq<Seq<Seq<char>>>,
    edges: Seq<Seq<int>>,
) -> bool {
    &&& edges.len() == next_names.len()
    &&& forall|i: int|
        0 <= i < edges.len() ==> (#[trigger] edges[i]).len() == next_names[i].len()
    &&& forall|i: int, e: int|
        0 <= i < edges.len() && 0 <= e < edges[i].len() ==> 0 <= (#[trigger] edges[i][e])
            < names.len() && names[edges[i][e]] == next_names[i][e]
}

/// The edge at place `e` of node `i` is the first, in the order of the
/// nodes and of each node's edges, that names no node.
pub open spec fn first_unresolved(
    names: Seq<Seq<char>>,
    next_names: Seq<Seq<Seq<char>>>,
    i: int,
    e: int,
) -> bool {
    &&& 0 <= i < next_names.len()
    &&& 0 <= e < next_names[i].len()
    &&& !names.contains(next_names[i][e])
    &&& forall|j: int, f: int|
        0 <= j < i && 0 <= f < next_names[j].len() ==> names.contains(
            #[trigger] next_names[j][f],
        )
    &&& forall|f: int| 0 <= f < e ==> names.contains(#[trigger] next_names[i][f])
}

/// Every edge names a node.
pub open spec fn resolvable(names: Seq<Seq<char>>, next_names: Seq<Seq<Seq<char>>>) -> bool {
    forall|i: int, e: int|
        0 <= i < next_names.len() && 0 <= e < next_names[i].len() ==> names.contains(
            #[trigger] next_names[i][e],
        )
}

/// What changes in a graph while it runs: its nodes, the packets that
/// wait for each node, what is counted for each node, and the counts of the
/// pool.
pub struct GraphState<N> {
    pub clients: Seq<N>,
    pub queues: Seq<Seq<Packet>>,
    pub counters: Seq<GnodeCntrs>,
    pub pool: PoolView,
}

/// For each queue, the number of packets in it.
pub open spec fn lengths(queues: Seq<Seq<Packet>>) -> Seq<nat> {
    Seq::new(queues.len(), |i: int| queues[i].len())
}

/// The node at place `i` is the first for which packets are left.
pub open spec fn first_left(left: Seq<nat>, i: int) -> bool {
    &&& 0 <= i < left.len()
    &&& left[i] > 0
    &&& forall|j: int| 0 <= j < i ==> left[j] == 0
}

/// A directed graph of processing nodes with the pool that its packets
/// come from. Nodes are added by name; `finalize` resolves the names of
/// their edges once; from then on the graph's shape is fixed and `run`
/// moves packets along the edges.
pub struct Graph<N, P> {
    thread: usize,
    nodes: Vec<Gnode<N>>,
    pool: P,
    finalized: bool,
    waiting: usize,
    quota: Vec<usize>,
    outbox: VecDeque<Output>,
}

impl<N: Node, P: PacketPool> Graph<N, P> {
    /// The forwarding thread that the graph belongs to.
    pub closed spec fn spec_thread(&self) -> nat {
        self.thread as nat
    }

    /// The names of the nodes, in the order in which they were added.
    pub closed spec fn names(&self) -> Seq<Seq<char>> {
        Seq::new(self.nodes@.len(), |i: int| self.nodes@[i].name@)
    }

    /// For each node, the names of its edges as declared.
    pub closed spec fn next_names(&self) -> Seq<Seq<Seq<char>>> {
        Seq::new(self.nodes@.len(), |i: int| views(self.nodes@[i].next_names@))
    }

    /// For each node, the nodes that its edges lead to. Empty for each
    /// node until the graph is finalized.
    pub closed spec fn edges(&self) -> Seq<Seq<int>> {
        Seq::new(
            self.nodes@.len(),
            |i: int|
                Seq::new(
                    self.nodes@[i].next_nodes@.len(),
                    |e: int| self.nodes@[i].next_nodes@[e] as int,
                ),
        )
    }

    /// Whether the edges are resolved.
    pub closed spec fn is_finalized(&self) -> bool {
        self.finalized
    }

    /// For each node, the packets that wait for it, the oldest first.
    pub closed spec fn queues(&self) -> Seq<Seq<Packet>> {
        Seq::new(self.nodes@.len(), |i: int| self.nodes@[i].input@)
    }

    /// For each node, the number of packets that wait for it.
    pub open spec fn pending(&self) -> Seq<nat> {
        Seq::new(self.queues().len(), |i: int| self.queues()[i].len())
    }

    /// For each node, what the graph has counted.
    pub closed spec fn counters(&self) -> Seq<GnodeCntrs> {
        Seq::new(self.nodes@.len(), |i: int| self.nodes@[i].cntrs)
    }

    /// The nodes themselves.
    pub closed spec fn clients(&self) -> Seq<N> {
        Seq::new(self.nodes@.len(), |i: int| self.nodes@[i].client)
    }

    /// The pool that the graph's packets come from.
    pub closed spec fn pool(&self) -> P {
        self.pool
    }

    /// The graph is consistent: its pool and nodes are; no two nodes have
    /// one name; every packet that waits is sound; before the graph is
    /// finalized no edge is resolved and no packet waits, after it every
    /// edge is.
    pub closed spec fn wf(&self) -> bool {
        &&& self.pool.wf()
        &&& forall|i: int| 0 <= i < self.nodes@.len() ==> (#[trigger] self.nodes@[i]).client.inv()
        &&& forall|i: int, j: int|
            0 <= i < j < self.nodes@.len() ==> (#[trigger] self.nodes@[i]).name@ != (
            #[trigger] self.nodes@[j]).name@
        &&& forall|i: int, k: int|
            0 <= i < self.nodes@.len() && 0 <= k < self.nodes@[i].input@.len() ==> (
            #[trigger] self.nodes@[i].input@[k]).wf()
        &&& self.waiting == total(self.pending())
        &&& if self.finalized {
            resolved(self.names(), self.next_names(), self.edges())
        } else {
            &&& self.waiting == 0
            &&& forall|i: int|
                0 <= i < self.nodes@.len() ==> (#[trigger] self.nodes@[i]).next_nodes@.len() == 0
        }
    }

    /// What a consistent graph is known to be, in terms of what it shows.
    pub proof fn lemma_wf(&self)
        requires
            self.wf(),
        ensures
            self.pool().wf(),
            self.next_names().len() == self.names().len(),
            self.edges().len() == self.names().len(),
            self.queues().len() == self.names().len(),
            self.counters().len() == self.names().len(),
            self.clients().len() == self.names().len(),
            total(self.pending()) <= usize::MAX,
            forall|i: int, j: int|
                0 <= i < j < self.names().len() ==> self.names()[i] != self.names()[j],
            forall|i: int, k: int|
                0 <= i < self.queues().len() && 0 <= k < self.queues()[i].len() ==> (
                #[trigger] self.queues()[i][k]).wf(),
            forall|i: int| 0 <= i < self.clients().len() ==> (#[trigger] self.clients()[i]).inv(),
            self.is_finalized() ==> resolved(self.names(), self.next_names(), self.edges()),
            !self.is_finalized() ==> total(self.pending()) == 0 && forall|i: int|
                0 <= i < self.edges().len() ==> (#[trigger] self.edges()[i]).len() == 0,
    {
        assert forall|i: int, j: int| 0 <= i < j < self.names().len() implies self.names()[i]
            != self.names()[j] by {
            assert(self.nodes@[i].name@ != self.nodes@[j].name@);
        }
        assert forall|i: int| 0 <= i < self.clients().len() implies (
        #[trigger] self.clients()[i]).inv() by {
            assert(self.nodes@[i].client.inv());
        }
    }

    /// An empty graph for the forwarding thread `thread`, over `pool`.
    pub fn new(thread: usize, pool: P) -> (g: Self)
        requires
            pool.wf(),
        ensures
            g.wf(),
            g.spec_thread() == thread,
            g.names() == Seq::<Seq<char>>::empty(),
            !g.is_finalized(),
            g.pool() == pool,
    {
        let g = Graph {
            thread,
            nodes: Vec::new(),
            pool,
            finalized: false,
            waiting: 0,
            quota: Vec::new(),
            outbox: VecDeque::new(),
        };
        proof {
            assert(g.names() =~= Seq::<Seq<char>>::empty());
            assert(g.pending() =~= Seq::<nat>::empty());
        }
        g
    }

    /// The number of nodes.
    pub fn num_nodes(&self) -> (n: usize)
        ensures
            n == self.names().len(),
    {
        self.nodes.len()
    }

    /// The forwarding thread that the graph belongs to.
    pub fn thread(&self) -> (t: usize)
        ensures
            t == self.spec_thread(),
    {
        self.thread
    }

    /// Whether the edges are resolved.
    pub fn finalized(&self) -> (done: bool)
        ensures
            done == self.is_finalized(),
    {
        self.finalized
    }

    /// The place of the node called `name`, in a graph that has one.
    pub open spec fn place(&self, name: Seq<char>) -> int {
        choose|i: int| 0 <= i < self.names().len() && self.names()[i] == name
    }

    /// The place of the node called `name`, if there is one.
    pub fn index(&self, name: &str) -> (r: Option<usize>)
        requires
            self.wf(),
        ensures
            r.is_some() == self.names().contains(name@),
            match r {
                Some(i) => i < self.names().len() && self.names()[i as int] == name@ && i
                    == self.place(name@),
                None => true,
            },
    {
        let wanted = String::from_str(name);
        let mut i: usize = 0;
        while i < self.nodes.len()
            invariant
                i <= self.nodes@.len(),
                wanted@ == name@,
                self.wf(),
                forall|j: int| 0 <= j < i ==> self.names()[j] != name@,
            decreases self.nodes@.len() - i,
        {
            if self.nodes[i].name == wanted {
                proof {
                    assert(self.names()[i as int] == name@);
                    let found = self.place(name@);
                    if found < i {
                        assert(self.nodes@[found].name@ != self.nodes@[i as int].name@);
                    } else if found > i {
                        assert(self.nodes@[i as int].name@ != self.nodes@[found].name@);
                    }
                }
                return Some(i);
            }
            i = i + 1;
        }
        None
    }

    /// Registers `node` under the name and with the edges that `init`
    /// declares. A graph that is finalized takes no node, and no graph
    /// takes two nodes of one name: then nothing changes.
    pub fn add(&mut self, node: N, init: GnodeInit) -> (r: Result<usize, GraphError>)
        requires
            old(self).wf(),
            node.inv(),
        ensures
            final(self).wf(),
            match r {
                Ok(i) => {
                    &&& !old(self).is_finalized()
                    &&& !old(self).names().contains(init.name@)
                    &&& i == old(self).names().len()
                    &&& final(self).names() == old(self).names().push(init.name@)
                    &&& final(self).next_names() == old(self).next_names().push(
                        views(init.next_names@),
                    )
                    &&& final(self).edges() == old(self).edges().push(Seq::<int>::empty())
                    &&& final(self).queues() == old(self).queues().push(Seq::<Packet>::empty())
                    &&& final(self).counters() == old(self).counters().push(init.cntrs)
                    &&& final(self).clients() == old(self).clients().push(node)
                    &&& final(self).pool() == old(self).pool()
                    &&& final(self).spec_thread() == old(self).spec_thread()
                    &&& !final(self).is_finalized()
                },
                Err(e) => {
                    &&& *final(self) == *old(self)
                    &&& old(self).is_finalized() ==> e == GraphError::Finalized
                    &&& !old(self).is_finalized()
                        ==> e == GraphError::Duplicate && old(self).names().contains(init.name@)
                },
            },
    {
        if self.finalized {
            return Err(GraphError::Finalized);
        }
        if self.index(init.name.as_str()).is_some() {
            return Err(GraphError::Duplicate);
        }
        let at = self.nodes.len();
        let ghost before = self.pending();
        self.nodes.push(
            Gnode {
                client: node,
                name: init.name,
                next_names: init.next_names,
                next_nodes: Vec::new(),
                input: VecDeque::new(),
                cntrs: init.cntrs,
            },
        );
        proof {
            assert(self.names() =~= old(self).names().push(init.name@));
            assert(self.next_names() =~= old(self).next_names().push(views(init.next_names@)));
            assert(self.edges() =~~= old(self).edges().push(Seq::<int>::empty()));
            assert(self.queues() =~= old(self).queues().push(Seq::<Packet>::empty()));
            assert(self.counters() =~= old(self).counters().push(init.cntrs));
            assert(self.clients() =~= old(self).clients().push(node));
            assert(self.pending() =~= before.push(0));
            assert(self.pending().drop_last() =~= before);
            assert forall|i: int, j: int| 0 <= i < j < self.nodes@.len() implies (
            #[trigger] self.nodes@[i]).name@ != (#[trigger] self.nodes@[j]).name@ by {
                if j == at {
                    assert(old(self).names()[i] == self.nodes@[i].name@);
                    assert(old(self).names().contains(self.nodes@[i].name@));
                } else {
                    assert(old(self).nodes@[i].name@ != old(self).nodes@[j].name@);
                }
            }
            assert forall|i: int| 0 <= i < self.nodes@.len() implies (
            #[trigger] self.nodes@[i]).client.inv() by {
                if i < at {
                    assert(old(self).nodes@[i].client.inv());
                }
            }
            assert forall|i: int| 0 <= i < self.nodes@.len() implies (
            #[trigger] self.nodes@[i]).next_nodes@.len() == 0 by {
                if i < at {
                    assert(old(self).nodes@[i].next_nodes@.len() == 0);
                }
            }
            assert forall|i: int, k: int|
                0 <= i < self.nodes@.len() && 0 <= k < self.nodes@[i].input@.len() implies (
            #[trigger] self.nodes@[i].input@[k]).wf() by {
                if i < at {
                    assert(old(self).nodes@[i].input@[k].wf());
                }
            }
        }
        Ok(at)
    }

    /// For each node, the places of the nodes that its edges name; or the
    /// first edge that names no node.
    fn resolve(&self) -> (r: Result<Vec<Vec<usize>>, GraphError>)
        requires
            self.wf(),
        ensures
            match r {
                Ok(table) => {
                    &&& table@.len() == self.names().len()
                    &&& forall|i: int|
                        0 <= i < table@.len() ==> (#[trigger] table@[i])@.len()
                            == self.next_names()[i].len()
                    &&& forall|i: int, e: int|
                        0 <= i < table@.len() && 0 <= e < table@[i]@.len() ==> (
                        #[trigger] table@[i]@[e]) < self.names().len()
                            && self.names()[table@[i]@[e] as int] == self.next_names()[i][e]
                },
                Err(GraphError::Unresolved { node, edge }) => first_unresolved(
                    self.names(),
                    self.next_names(),
                    node as int,
                    edge as int,
                ),
                Err(_) => false,
            },
            r.is_ok() == resolvable(self.names(), self.next_names()),
    {
        let mut table: Vec<Vec<usize>> = Vec::new();
        let n = self.nodes.len();
        let mut i: usize = 0;
        while i < n
            invariant
                i <= n,
                n == self.nodes@.len(),
                self.wf(),
                table@.len() == i,
                forall|j: int|
                    0 <= j < i ==> (#[trigger] table@[j])@.len() == self.next_names()[j].len(),
                forall|j: int, e: int|
                    0 <= j < i && 0 <= e < table@[j]@.len() ==> (#[trigger] table@[j]@[e])
                        < self.names().len() && self.names()[table@[j]@[e] as int]
                        == self.next_names()[j][e],
                forall|j: int, f: int|
                    0 <= j < i && 0 <= f < self.next_names()[j].len() ==> self.names().contains(
                        #[trigger] self.next_names()[j][f],
                    ),
            decreases n - i,
        {
            let mut row: Vec<usize> = Vec::new();
            let m = self.nodes[i].next_names.len();
            let mut e: usize = 0;
            while e < m
                invariant
                    e <= m,
                    i < n,
                    n == self.nodes@.len(),
                    m == self.nodes@[i as int].next_names@.len(),
                    m == self.next_names()[i as int].len(),
                    self.wf(),
                    row@.len() == e,
                    forall|f: int|
                        0 <= f < e ==> (#[trigger] row@[f]) < self.names().len()
                            && self.names()[row@[f] as int] == self.next_names()[i as int][f],
                    forall|f: int|
                        0 <= f < e ==> self.names().contains(
                            #[trigger] self.next_names()[i as int][f],
                        ),
                    forall|j: int, f: int|
                        0 <= j < i && 0 <= f < self.next_names()[j].len()
                            ==> self.names().contains(#[trigger] self.next_names()[j][f]),
                decreases m - e,
            {
                assert(self.next_names()[i as int][e as int]
                    == self.nodes@[i as int].next_names@[e as int]@);
                match self.index(self.nodes[i].next_names[e].as_str()) {
                    Some(target) => {
                        row.push(target);
                        assert(self.names()[target as int]
                            == self.next_names()[i as int][e as int]);
                    },
                    None => {
                        assert(first_unresolved(
                            self.names(),
                            self.next_names(),
                            i as int,
                            e as int,
                        ));
                        return Err(GraphError::Unresolved { node: i, edge: e });
                    },
                }
                e = e + 1;
            }
            table.push(row);
            i = i + 1;
        }
        assert(resolvable(self.names(), self.next_names()));
        Ok(table)
    }

    /// Resolves the name of every edge to the node that it names. If an
    /// edge names no node, the graph stays as it is and the first such edge
    /// is reported. A graph that is finalized already stays as it is.
    pub fn finalize(&mut self) -> (r: Result<(), GraphError>)
        requires
            old(self).wf(),
        ensures
            final(self).wf(),
            final(self).same_nodes(old(self)),
            final(self).queues() == old(self).queues(),
            final(self).counters() == old(self).counters(),
            r.is_ok() == (old(self).is_finalized() || resolvable(
                old(self).names(),
                old(self).next_names(),
            )),
            match r {
                Ok(_) => final(self).is_finalized() && (old(self).is_finalized()
                    ==> final(self).edges() == old(self).edges()),
                Err(GraphError::Unresolved { node, edge }) => *final(self) == *old(self)
                    && first_unresolved(
                    old(self).names(),
                    old(self).next_names(),
                    node as int,
                    edge as int,
                ),
                Err(_) => false,
            },
    {
        if self.finalized {
            return Ok(());
        }
        let mut table = match self.resolve() {
            Ok(table) => table,
            Err(e) => {
                return Err(e);
            },
        };
        let ghost full = table@;
        let mut k: usize = self.nodes.len();
        while k > 0
            invariant
                k <= self.nodes@.len(),
                self.nodes@.len() == old(self).nodes@.len(),
                table@ == full.take(k as int),
                full.len() == self.nodes@.len(),
                forall|i: int|
                    0 <= i < self.nodes@.len() ==> {
                        &&& (#[trigger] self.nodes@[i]).client == old(self).nodes@[i].client
                        &&& self.nodes@[i].name == old(self).nodes@[i].name
                        &&& self.nodes@[i].next_names == old(self).nodes@[i].next_names
                        &&& self.nodes@[i].input == old(self).nodes@[i].input
                        &&& self.nodes@[i].cntrs == old(self).nodes@[i].cntrs
                    },
                forall|i: int|
                    0 <= i < k
                        ==> (#[trigger] self.nodes@[i]).next_nodes
                            == old(self).nodes@[i].next_nodes,
                forall|i: int|
                    k <= i < self.nodes@.len() ==> (#[trigger] self.nodes@[i]).next_nodes
                        == full[i],
                self.pool == old(self).pool,
                self.thread == old(self).thread,
                self.waiting == old(self).waiting,
                self.finalized == old(self).finalized,
            decreases k,
        {
            k = k - 1;
            let row = table.pop().unwrap();
            self.nodes[k].next_nodes = row;
            assert(table@ =~= full.take(k as int));
        }
        self.finalized = true;
        proof {
            assert(self.names() =~= old(self).names());
            assert(self.next_names() =~= old(self).next_names());
            assert(self.queues() =~= old(self).queues());
            assert(self.counters() =~= old(self).counters());
            assert(self.clients() =~= old(self).clients());
            assert(self.pending() =~= old(self).pending());
            assert forall|i: int| 0 <= i < self.nodes@.len() implies (
            #[trigger] self.nodes@[i]).client.inv() by {
                assert(old(self).nodes@[i].client.inv());
            }
            assert forall|i: int, j: int| 0 <= i < j < self.nodes@.len() implies (
            #[trigger] self.nodes@[i]).name@ != (#[trigger] self.nodes@[j]).name@ by {
                assert(old(self).nodes@[i].name@ != old(self).nodes@[j].name@);
            }
            assert forall|i: int, k: int|
                0 <= i < self.nodes@.len() && 0 <= k < self.nodes@[i].input@.len() implies (
            #[trigger] self.nodes@[i].input@[k]).wf() by {
                assert(old(self).nodes@[i].input@[k].wf());
            }
            assert forall|i: int, e: int|
                0 <= i < self.edges().len() && 0 <= e < self.edges()[i].len() implies 0 <= (
            #[trigger] self.edges()[i][e]) < self.names().len() && self.names()[self.edges()[i][e]]
                == self.next_names()[i][e] by {
                assert(self.nodes@[i].next_nodes == full[i]);
                assert(full[i]@[e] < old(self).names().len());
            }
            assert forall|i: int| 0 <= i < self.edges().len() implies (
            #[trigger] self.edges()[i]).len() == self.next_names()[i].len() by {
                assert(self.nodes@[i].next_nodes == full[i]);
                assert(full[i]@.len() == old(self).next_names()[i].len());
            }
        }
        Ok(())
    }

    /// Both graphs have the same nodes under the same names, with the same
    /// declared edges, the same pool and the same thread.
    pub open spec fn same_nodes(&self, other: &Self) -> bool {
        &&& self.names() == other.names()
        &&& self.next_names() == other.next_names()
        &&& self.clients() == other.clients()
        &&& self.pool() == other.pool()
        &&& self.spec_thread() == other.spec_thread()
    }

    /// What changes in the graph while it runs.
    pub open spec fn state(&self) -> GraphState<N> {
        GraphState {
            clients: self.clients(),
            queues: self.queues(),
            counters: self.counters(),
            pool: self.pool()@,
        }
    }

    /// The state after one output of the node at place `from` was sent on
    /// its way from the state `s`. An output on an edge that the node has
    /// goes to the back of the queue of the node that the edge leads to,
    /// and is counted as forwarded. Any other output, and any output once
    /// the number of waiting packets cannot be counted any more, goes back
    /// to the pool and is counted as dropped.
    pub open spec fn sent_one(&self, from: int, s: GraphState<N>, out: Output) -> GraphState<N> {
        if self.is_finalized() && 0 <= from < self.edges().len() && 0 <= out.edge
            < self.edges()[from].len() && total(lengths(s.queues)) < usize::MAX {
            let to = self.edges()[from][out.edge as int];
            GraphState {
                queues: s.queues.update(to, s.queues[to].push(out.pkt)),
                counters: s.counters.update(
                    from,
                    GnodeCntrs {
                        forwarded: bumped(s.counters[from].forwarded, 1),
                        ..s.counters[from]
                    },
                ),
                ..s
            }
        } else {
            GraphState {
                counters: s.counters.update(
                    from,
                    GnodeCntrs { dropped: bumped(s.counters[from].dropped, 1), ..s.counters[from] },
                ),
                pool: s.pool.gave(
                    1,
                    if out.pkt.spec_particle_sz() == s.pool.particle_sz {
                        out.pkt.chunks().len()
                    } else {
                        0
                    },
                ),
                ..s
            }
        }
    }

    /// The state after the outputs `outs` of the node at place `from` were
    /// sent on their way, in their order, from the state `s`.
    pub open spec fn sent_all(&self, from: int, s: GraphState<N>, outs: Seq<Output>) -> GraphState<
        N,
    >
        decreases outs.len(),
    {
        if outs.len() == 0 {
            s
        } else {
            self.sent_all(from, self.sent_one(from, s, outs[0]), outs.skip(1))
        }
    }

    /// The state `s` when the node at place `i` has been handed the oldest
    /// packet that waits for it, has become `after` and has left the pool's
    /// counts at `pool`, and nothing of what it sends on is on its way yet.
    pub open spec fn handed(s: GraphState<N>, i: int, after: N, pool: PoolView) -> GraphState<N> {
        GraphState {
            clients: s.clients.update(i, after),
            queues: s.queues.update(i, s.queues[i].skip(1)),
            counters: s.counters.update(
                i,
                GnodeCntrs { dispatched: bumped(s.counters[i].dispatched, 1), ..s.counters[i] },
            ),
            pool,
        }
    }

    /// Whether the state `post` can follow the state `pre` when the node at
    /// place `i` is handed the oldest packet that waits for it: the node
    /// does with the packet something that it may do, and what it sends on
    /// is sent on its way, in order.
    pub open spec fn handoff(&self, pre: GraphState<N>, i: int, post: GraphState<N>) -> bool {
        exists|after: N, pool: PoolView, outs: Seq<Output>|
            #[trigger] pre.clients[i].handles(pre.queues[i][0], pre.pool, after, pool, outs)
                && post == self.sent_all(i, Self::handed(pre, i, after, pool), outs)
    }

    /// Whether a pass can lead from the state `pre` to the state `post`
    /// when `left` says how many of the packets that waited when the pass
    /// began are still to be handed to each node, `n` in all, and `origin`
    /// holds the packets that waited for each node when the pass began. The
    /// pass hands a packet to the first node for which packets are left,
    /// until none is left for any node. Each time the packet handed is the
    /// oldest that waits for the node, and it is the oldest of those that
    /// waited when the pass began and have not been handed yet: never one
    /// that was sent on during the pass.
    pub open spec fn passes(
        &self,
        origin: Seq<Seq<Packet>>,
        pre: GraphState<N>,
        left: Seq<nat>,
        n: nat,
        post: GraphState<N>,
    ) -> bool
        decreases n,
    {
        if n == 0 {
            post == pre
        } else {
            exists|i: int, mid: GraphState<N>|
                first_left(left, i) && pre.queues[i][0] == origin[i][origin[i].len() - left[i]]
                    && #[trigger] self.handoff(pre, i, mid) && self.passes(
                    origin,
                    mid,
                    left.update(i, (left[i] - 1) as nat),
                    (n - 1) as nat,
                    post,
                )
        }
    }

    /// Both graphs have the same shape: the same names, declared and
    /// resolved edges, thread, and a pool of the same capacities.
    pub open spec fn same_shape(&self, other: &Self) -> bool {
        &&& self.names() == other.names()
        &&& self.next_names() == other.next_names()
        &&& self.edges() == other.edges()
        &&& self.is_finalized() == other.is_finalized()
        &&& self.spec_thread() == other.spec_thread()
        &&& self.pool()@.same_limits(other.pool()@)
    }

    /// The node at place `i`.
    pub fn node(&self, i: usize) -> (node: &N)
        requires
            self.wf(),
            i < self.names().len(),
        ensures
            *node == self.clients()[i as int],
            node.inv(),
    {
        assert(self.nodes@[i as int].client.inv());
        &self.nodes[i].client
    }

    /// The number of packets that wait for the node at place `i`.
    pub fn pending_at(&self, i: usize) -> (n: usize)
        requires
            self.wf(),
            i < self.names().len(),
        ensures
            n == self.pending()[i as int],
    {
        self.nodes[i].input.len()
    }

    /// The number of packets that wait in the whole graph.
    pub fn pending_total(&self) -> (n: usize)
        requires
            self.wf(),
        ensures
            n == total(self.pending()),
    {
        self.waiting
    }

    /// What the graph has counted for the node at place `i`.
    pub fn counters_at(&self, i: usize) -> (c: GnodeCntrs)
        requires
            self.wf(),
            i < self.names().len(),
        ensures
            c == self.counters()[i as int],
    {
        self.nodes[i].cntrs
    }

    /// Hands out a packet from the graph's pool, as the pool's `pkt` does.
    pub fn pkt(&mut self, headroom: usize) -> (r: Option<Packet>)
        requires
            old(self).wf(),
        ensures
            final(self).wf(),
            final(self).same_shape(old(self)),
            final(self).queues() == old(self).queues(),
            final(self).counters() == old(self).counters(),
            final(self).clients() == old(self).clients(),
            r.is_some() == (old(self).pool()@.free_packets > 0 && old(self).pool()@.free_particles
                > 0),
            match r {
                Some(p) => {
                    &&& p.wf()
                    &&& p@ == Seq::<u8>::empty()
                    &&& p.chunks().len() == 1
                    &&& p.spec_headroom()
                        == reserved(headroom as nat, old(self).pool()@.particle_sz)
                    &&& p.spec_particle_sz() == old(self).pool()@.particle_sz
                    &&& final(self).pool()@ == old(self).pool()@.took(1, 1)
                },
                None => final(self).pool()@ == old(self).pool()@,
            },
    {
        let r = self.pool.pkt(headroom);
        proof {
            self.lemma_frame(old(self));
            if r.is_some() {
                r.unwrap().chunks().lemma_flatten_one_element();
            }
        }
        r
    }

    /// Gives a packet back to the graph's pool, as the pool's `free_pkt`
    /// does.
    pub fn free_pkt(&mut self, pkt: Packet)
        requires
            old(self).wf(),
            pkt.wf(),
        ensures
            final(self).wf(),
            final(self).same_shape(old(self)),
            final(self).queues() == old(self).queues(),
            final(self).counters() == old(self).counters(),
            final(self).clients() == old(self).clients(),
            final(self).pool()@ == old(self).pool()@.gave(
                1,
                if pkt.spec_particle_sz() == old(self).pool()@.particle_sz {
                    pkt.chunks().len()
                } else {
                    0
                },
            ),
    {
        self.pool.free_pkt(pkt);
        proof {
            self.lemma_frame(old(self));
        }
    }

    /// A graph whose nodes are those of a consistent graph, but for counts
    /// and for nodes and a pool that are consistent themselves, is
    /// consistent too.
    proof fn lemma_frame(&self, other: &Self)
        requires
            other.wf(),
            self.pool.wf(),
            self.thread == other.thread,
            self.finalized == other.finalized,
            self.waiting == other.waiting,
            self.nodes@.len() == other.nodes@.len(),
            forall|i: int|
                0 <= i < self.nodes@.len() ==> {
                    &&& (#[trigger] self.nodes@[i]).client.inv()
                    &&& self.nodes@[i].name == other.nodes@[i].name
                    &&& self.nodes@[i].next_names == other.nodes@[i].next_names
                    &&& self.nodes@[i].next_nodes == other.nodes@[i].next_nodes
                    &&& self.nodes@[i].input == other.nodes@[i].input
                },
        ensures
            self.wf(),
            self.names() == other.names(),
            self.next_names() == other.next_names(),
            self.edges() == other.edges(),
            self.queues() == other.queues(),
            self.is_finalized() == other.is_finalized(),
            self.spec_thread() == other.spec_thread(),
            (forall|i: int|
                0 <= i < self.nodes@.len() ==> (#[trigger] self.nodes@[i]).cntrs
                    == other.nodes@[i].cntrs) ==> self.counters() == other.counters(),
            (forall|i: int|
                0 <= i < self.nodes@.len() ==> (#[trigger] self.nodes@[i]).client
                    == other.nodes@[i].client) ==> self.clients() == other.clients(),
    {
        assert(self.names() =~= other.names());
        assert(self.next_names() =~= other.next_names());
        assert(self.edges() =~~= other.edges());
        assert(self.queues() =~= other.queues());
        assert(self.pending() =~= other.pending());
        if forall|i: int|
            0 <= i < self.nodes@.len() ==> (#[trigger] self.nodes@[i]).cntrs
                == other.nodes@[i].cntrs {
            assert(self.counters() =~= other.counters());
        }
        if forall|i: int|
            0 <= i < self.nodes@.len() ==> (#[trigger] self.nodes@[i]).client
                == other.nodes@[i].client {
            assert(self.clients() =~= other.clients());
        }
        assert forall|i: int, j: int| 0 <= i < j < self.nodes@.len() implies (
        #[trigger] self.nodes@[i]).name@ != (#[trigger] self.nodes@[j]).name@ by {
            assert(other.nodes@[i].name@ != other.nodes@[j].name@);
        }
        assert forall|i: int, k: int|
            0 <= i < self.nodes@.len() && 0 <= k < self.nodes@[i].input@.len() implies (
        #[trigger] self.nodes@[i].input@[k]).wf() by {
            assert(other.nodes@[i].input@[k].wf());
        }
        if !self.finalized {
            assert forall|i: int| 0 <= i < self.nodes@.len() implies (
            #[trigger] self.nodes@[i]).next_nodes@.len() == 0 by {
                assert(other.nodes@[i].next_nodes@.len() == 0);
            }
        }
    }

    /// Whether a packet can be put into the queue of the node at place
    /// `node`: the graph is finalized, the node exists, and the number of
    /// waiting packets can still be counted.
    pub open spec fn takes(&self, node: int) -> bool {
        &&& self.is_finalized()
        &&& 0 <= node < self.names().len()
        &&& total(self.pending()) < usize::MAX
    }

    /// Puts `pkt` at the back of the queue of the node at place `node`.
    /// Where the graph cannot take it, it comes back and nothing changes.
    pub fn enqueue(&mut self, node: usize, pkt: Packet) -> (r: Result<(), Packet>)
        requires
            old(self).wf(),
            pkt.wf(),
        ensures
            final(self).wf(),
            final(self).same_shape(old(self)),
            final(self).counters() == old(self).counters(),
            final(self).clients() == old(self).clients(),
            final(self).pool() == old(self).pool(),
            match r {
                Ok(_) => old(self).takes(node as int)
                    && final(self).queues() == old(self).queues()
                        .update(node as int, old(self).queues()[node as int].push(pkt)),
                Err(back) => !old(self).takes(node as int) && back == pkt
                    && *final(self) == *old(self),
            },
    {
        if !self.finalized || node >= self.nodes.len() || self.waiting == usize::MAX {
            proof {
                self.lemma_wf();
            }
            return Err(pkt);
        }
        let ghost before = self.pending();
        let ghost queue = self.nodes@[node as int].input@;
        self.nodes[node].input.push_back(pkt);
        self.waiting = self.waiting + 1;
        proof {
            assert(self.queues() =~= old(self).queues().update(node as int, queue.push(pkt)));
            assert(self.pending() =~= before.update(node as int, before[node as int] + 1));
            lemma_total_update(before, node as int, before[node as int] + 1);
            assert(self.names() =~= old(self).names());
            assert(self.next_names() =~= old(self).next_names());
            assert(self.edges() =~~= old(self).edges());
            assert(self.counters() =~= old(self).counters());
            assert(self.clients() =~= old(self).clients());
            assert forall|i: int| 0 <= i < self.nodes@.len() implies (
            #[trigger] self.nodes@[i]).client.inv() by {
                assert(old(self).nodes@[i].client.inv());
            }
            assert forall|i: int, j: int| 0 <= i < j < self.nodes@.len() implies (
            #[trigger] self.nodes@[i]).name@ != (#[trigger] self.nodes@[j]).name@ by {
                assert(old(self).nodes@[i].name@ != old(self).nodes@[j].name@);
            }
            assert forall|i: int, k: int|
                0 <= i < self.nodes@.len() && 0 <= k < self.nodes@[i].input@.len() implies (
            #[trigger] self.nodes@[i].input@[k]).wf() by {
                if i == node && k == queue.len() {
                } else {
                    assert(old(self).nodes@[i].input@[k].wf());
                }
            }
        }
        Ok(())
    }

    /// What holds at every point of a pass that began with the graph
    /// `start`, when `left` says how many of the packets that waited at the
    /// beginning are still to be handed to each node, and `count` packets
    /// have been handed to nodes.
    spec fn in_pass(&self, start: &Self, left: Seq<nat>, count: nat) -> bool {
        let n = start.names().len();
        let q0 = start.pending();
        &&& self.wf()
        &&& self.same_shape(start)
        &&& left.len() == n
        &&& q0.len() == n
        &&& self.pending().len() == n
        &&& self.counters().len() == n
        &&& start.counters().len() == n
        &&& start.edges().len() == n
        &&& total(q0) <= usize::MAX
        &&& count + total(left) == total(q0)
        &&& forall|j: int| 0 <= j < n ==> #[trigger] self.pending()[j] >= left[j]
        &&& forall|j: int|
            0 <= j < n && #[trigger] self.pending()[j] > left[j] ==> exists|src: int, e: int|
                0 <= src < n && q0[src] > 0 && 0 <= e < start.edges()[src].len()
                    && #[trigger] start.edges()[src][e] == j
        &&& forall|j: int, k: int|
            0 <= j < n && 0 <= k < left[j] ==> #[trigger] self.queues()[j][k]
                == start.queues()[j][q0[j] - left[j] + k]
        &&& forall|j: int|
            0 <= j < n ==> (#[trigger] self.counters()[j]).dispatched == bumped(
                start.counters()[j].dispatched,
                (q0[j] - left[j]) as nat,
            )
        &&& forall|f: GraphState<N>|
            #[trigger] start.passes(start.queues(), self.state(), left, total(left), f)
                ==> start.passes(start.queues(), start.state(), q0, total(q0), f)
    }

    /// Where outputs go depends on the shape of the graph alone.
    proof fn lemma_sent_all_shape(
        &self,
        other: &Self,
        from: int,
        s: GraphState<N>,
        outs: Seq<Output>,
    )
        requires
            self.edges() == other.edges(),
            self.is_finalized() == other.is_finalized(),
        ensures
            self.sent_all(from, s, outs) == other.sent_all(from, s, outs),
        decreases outs.len(),
    {
        if outs.len() > 0 {
            self.lemma_sent_all_shape(other, from, self.sent_one(from, s, outs[0]), outs.skip(1));
        }
    }

    /// Takes the oldest packet that waits for the node at place `i`, and
    /// counts it as handed to the node.
    fn take(&mut self, i: usize) -> (pkt: Packet)
        requires
            old(self).wf(),
            i < old(self).names().len(),
            old(self).pending()[i as int] > 0,
        ensures
            final(self).wf(),
            final(self).same_shape(old(self)),
            pkt.wf(),
            pkt == old(self).queues()[i as int][0],
            final(self).queues() == old(self).queues().update(
                i as int,
                old(self).queues()[i as int].skip(1),
            ),
            final(self).counters() == old(self).counters().update(
                i as int,
                GnodeCntrs {
                    dispatched: bumped(old(self).counters()[i as int].dispatched, 1),
                    ..old(self).counters()[i as int]
                },
            ),
            final(self).clients() == old(self).clients(),
            final(self).pool() == old(self).pool(),
    {
        let ghost before = self.pending();
        let ghost queue = self.nodes@[i as int].input@;
        proof {
            lemma_total_update(before, i as int, (before[i as int] - 1) as nat);
            assert(queue[0].wf());
        }
        let pkt = self.nodes[i].input.pop_front().unwrap();
        let seen = self.nodes[i].cntrs.dispatched;
        self.nodes[i].cntrs.dispatched = seen.saturating_add(1);
        self.waiting = self.waiting - 1;
        proof {
            assert(queue.subrange(1, queue.len() as int) =~= queue.skip(1));
            assert(self.queues() =~= old(self).queues().update(i as int, queue.skip(1)));
            assert(self.pending() =~= before.update(i as int, (before[i as int] - 1) as nat));
            assert(self.names() =~= old(self).names());
            assert(self.next_names() =~= old(self).next_names());
            assert(self.edges() =~~= old(self).edges());
            assert(self.clients() =~= old(self).clients());
            assert(self.counters() =~= old(self).counters().update(
                i as int,
                GnodeCntrs {
                    dispatched: bumped(old(self).counters()[i as int].dispatched, 1),
                    ..old(self).counters()[i as int]
                },
            ));
            assert forall|k: int| 0 <= k < self.nodes@.len() implies (
            #[trigger] self.nodes@[k]).client.inv() by {
                assert(old(self).nodes@[k].client.inv());
            }
            assert forall|k: int, j: int| 0 <= k < j < self.nodes@.len() implies (
            #[trigger] self.nodes@[k]).name@ != (#[trigger] self.nodes@[j]).name@ by {
                assert(old(self).nodes@[k].name@ != old(self).nodes@[j].name@);
            }
            assert forall|k: int, j: int|
                0 <= k < self.nodes@.len() && 0 <= j < self.nodes@[k].input@.len() implies (
            #[trigger] self.nodes@[k].input@[j]).wf() by {
                if k == i {
                    assert(old(self).nodes@[k].input@[j + 1].wf());
                } else {
                    assert(old(self).nodes@[k].input@[j].wf());
                }
            }
        }
        pkt
    }

    /// Hands `pkt` to the node at place `i`, which puts into `out` what it
    /// sends on.
    fn dispatch(&mut self, i: usize, pkt: Packet, out: &mut VecDeque<Output>)
        requires
            old(self).wf(),
            i < old(self).names().len(),
            pkt.wf(),
            old(out)@.len() == 0,
        ensures
            final(self).wf(),
            final(self).same_shape(old(self)),
            final(self).queues() == old(self).queues(),
            final(self).counters() == old(self).counters(),
            final(self).clients() == old(self).clients().update(
                i as int,
                final(self).clients()[i as int],
            ),
            old(self).clients()[i as int].handles(
                pkt,
                old(self).pool()@,
                final(self).clients()[i as int],
                final(self).pool()@,
                final(out)@,
            ),
            forall|k: int| 0 <= k < final(out)@.len() ==> (#[trigger] final(out)@[k]).pkt.wf(),
    {
        assert(self.nodes@[i as int].client.inv());
        self.nodes[i].client.process(pkt, &mut self.pool, out);
        proof {
            assert(self.clients() =~= old(self).clients().update(
                i as int,
                self.clients()[i as int],
            ));
            assert forall|k: int| 0 <= k < self.nodes@.len() implies (
            #[trigger] self.nodes@[k]).client.inv() by {
                if k != i {
                    assert(old(self).nodes@[k].client.inv());
                }
            }
            self.lemma_frame(old(self));
        }
    }

    /// Whether an output of the node at place `from` on its edge at place
    /// `edge` goes on to a next node: the graph is finalized, the node has
    /// such an edge, and the number of waiting packets can still be counted.
    pub open spec fn routes(&self, from: int, edge: int) -> bool {
        &&& self.is_finalized()
        &&& 0 <= from < self.edges().len()
        &&& 0 <= edge < self.edges()[from].len()
        &&& total(self.pending()) < usize::MAX
    }

    /// Sends one output of the node at place `from` on its way: to the back
    /// of the queue of the node that the edge leads to, or, where it does
    /// not go on, back to the pool. Either way the graph counts it for the
    /// node it came from.
    pub fn deliver(&mut self, from: usize, out: Output)
        requires
            old(self).wf(),
            from < old(self).names().len(),
            out.pkt.wf(),
        ensures
            final(self).wf(),
            final(self).same_shape(old(self)),
            final(self).clients() == old(self).clients(),
            final(self).state() == old(self).sent_one(from as int, old(self).state(), out),
            if old(self).routes(from as int, out.edge as int) {
                let to = old(self).edges()[from as int][out.edge as int];
                &&& final(self).queues() == old(self).queues().update(
                    to,
                    old(self).queues()[to].push(out.pkt),
                )
                &&& final(self).counters() == old(self).counters().update(
                    from as int,
                    GnodeCntrs {
                        forwarded: bumped(old(self).counters()[from as int].forwarded, 1),
                        ..old(self).counters()[from as int]
                    },
                )
                &&& final(self).pool() == old(self).pool()
            } else {
                &&& final(self).queues() == old(self).queues()
                &&& final(self).counters() == old(self).counters().update(
                    from as int,
                    GnodeCntrs {
                        dropped: bumped(old(self).counters()[from as int].dropped, 1),
                        ..old(self).counters()[from as int]
                    },
                )
                &&& final(self).pool()@ == old(self).pool()@.gave(
                    1,
                    if out.pkt.spec_particle_sz() == old(self).pool()@.particle_sz {
                        out.pkt.chunks().len()
                    } else {
                        0
                    },
                )
            },
    {
        proof {
            self.lemma_wf();
            assert(lengths(self.queues()) =~= self.pending());
        }
        let Output { edge, pkt } = out;
        if self.finalized && edge < self.nodes[from].next_nodes.len() && self.waiting < usize::MAX {
            let to = self.nodes[from].next_nodes[edge];
            assert(to == self.edges()[from as int][edge as int]);
            let r = self.enqueue(to, pkt);
            assert(r.is_ok());
            let ghost mid = *self;
            let seen = self.nodes[from].cntrs.forwarded;
            self.nodes[from].cntrs.forwarded = seen.saturating_add(1);
            proof {
                assert forall|k: int| 0 <= k < self.nodes@.len() implies (
                #[trigger] self.nodes@[k]).client.inv() by {
                    assert(mid.nodes@[k].client.inv());
                }
                self.lemma_frame(&mid);
                assert(self.counters() =~= old(self).counters().update(
                    from as int,
                    GnodeCntrs {
                        forwarded: bumped(old(self).counters()[from as int].forwarded, 1),
                        ..old(self).counters()[from as int]
                    },
                ));
                assert(self.clients() =~= mid.clients());
            }
        } else {
            self.pool.free_pkt(pkt);
            let seen = self.nodes[from].cntrs.dropped;
            self.nodes[from].cntrs.dropped = seen.saturating_add(1);
            proof {
                assert forall|k: int| 0 <= k < self.nodes@.len() implies (
                #[trigger] self.nodes@[k]).client.inv() by {
                    assert(old(self).nodes@[k].client.inv());
                }
                self.lemma_frame(old(self));
                assert(self.counters() =~= old(self).counters().update(
                    from as int,
                    GnodeCntrs {
                        dropped: bumped(old(self).counters()[from as int].dropped, 1),
                        ..old(self).counters()[from as int]
                    },
                ));
                assert(self.clients() =~= old(self).clients());
            }
        }
    }

    /// Sends the outputs `outs` of the node at place `from` on their way,
    /// in their order, and leaves `outs` empty.
    fn deliver_all(&mut self, from: usize, outs: &mut VecDeque<Output>)
        requires
            old(self).wf(),
            from < old(self).names().len(),
            forall|k: int| 0 <= k < old(outs)@.len() ==> (#[trigger] old(outs)@[k]).pkt.wf(),
        ensures
            final(outs)@.len() == 0,
            final(self).wf(),
            final(self).same_shape(old(self)),
            final(self).clients() == old(self).clients(),
            final(self).state() == old(self).sent_all(
                from as int,
                old(self).state(),
                old(outs)@,
            ),
            final(self).pending().len() == old(self).pending().len(),
            forall|j: int, k: int|
                0 <= j < old(self).queues().len() && 0 <= k < old(self).queues()[j].len()
                    ==> #[trigger] final(self).queues()[j][k] == old(self).queues()[j][k],
            forall|j: int|
                0 <= j < final(self).pending().len() ==> #[trigger] final(self).pending()[j]
                    >= old(self).pending()[j],
            forall|j: int|
                0 <= j < final(self).pending().len()
                    && #[trigger] final(self).pending()[j] > old(self).pending()[j]
                        ==> exists|e: int|
                    0 <= e < old(self).edges()[from as int].len()
                        && #[trigger] old(self).edges()[from as int][e] == j,
            forall|j: int|
                0 <= j < final(self).counters().len() ==> (
                #[trigger] final(self).counters()[j]).dispatched
                    == old(self).counters()[j].dispatched,
            final(self).counters().len() == old(self).counters().len(),
    {
        let ghost all = outs@;
        proof {
            self.lemma_wf();
        }
        while outs.len() > 0
            invariant
                old(self).sent_all(from as int, self.state(), outs@) == old(self).sent_all(
                    from as int,
                    old(self).state(),
                    all,
                ),
                self.wf(),
                self.same_shape(old(self)),
                self.clients() == old(self).clients(),
                from < self.names().len(),
                self.pending().len() == old(self).pending().len(),
                self.queues().len() == old(self).queues().len(),
                forall|j: int, k: int|
                    0 <= j < old(self).queues().len() && 0 <= k < old(self).queues()[j].len()
                        ==> #[trigger] self.queues()[j][k] == old(self).queues()[j][k],
                self.counters().len() == old(self).counters().len(),
                self.counters().len() == self.names().len(),
                self.pending().len() == self.names().len(),
                forall|k: int| 0 <= k < outs@.len() ==> (#[trigger] outs@[k]).pkt.wf(),
                forall|j: int|
                    0 <= j < self.pending().len()
                        ==> #[trigger] self.pending()[j] >= old(self).pending()[j],
                forall|j: int|
                    0 <= j < self.pending().len()
                        && #[trigger] self.pending()[j] > old(self).pending()[j] ==> exists|e: int|
                        0 <= e < old(self).edges()[from as int].len()
                            && #[trigger] old(self).edges()[from as int][e] == j,
                forall|j: int|
                    0 <= j < self.counters().len() ==> (#[trigger] self.counters()[j]).dispatched
                        == old(self).counters()[j].dispatched,
            decreases outs@.len(),
        {
            let ghost mid = *self;
            let ghost before = outs@;
            assert(outs@[0].pkt.wf());
            let out = outs.pop_front().unwrap();
            proof {
                mid.lemma_wf();
                assert(outs@ =~= before.skip(1));
            }
            self.deliver(from, out);
            proof {
                assert(mid.sent_one(from as int, mid.state(), out) == old(self).sent_one(
                    from as int,
                    mid.state(),
                    out,
                ));
                self.lemma_wf();
                if mid.routes(from as int, out.edge as int) {
                    let to = mid.edges()[from as int][out.edge as int];
                    assert(self.pending() =~= mid.pending().update(to, mid.pending()[to] + 1));
                } else {
                    assert(self.pending() =~= mid.pending());
                }
                assert forall|j: int, k: int|
                    0 <= j < old(self).queues().len()
                        && 0 <= k < old(self).queues()[j].len()
                            implies #[trigger] self.queues()[j][k] == old(self).queues()[j][k] by {
                    assert(mid.queues()[j][k] == old(self).queues()[j][k]);
                    assert(mid.pending()[j] >= old(self).pending()[j]);
                }
            }
        }
    }

    /// Runs one scheduling pass and returns whether packets wait after it,
    /// and how many packets it handed to nodes. The pass visits the nodes
    /// in the order in which they were added and hands each node, oldest
    /// first, the packets that waited for it when the pass began, and no
    /// others: what a node sends on during the pass waits for the next
    /// pass, also where it is sent to the node itself or to a node that the
    /// pass has yet to visit. What the pass leaves behind is what `passes`
    /// admits: each node did with each packet something that it may do,
    /// and each output went where `sent_one` says.
    pub fn run(&mut self) -> (r: (bool, usize))
        requires
            old(self).wf(),
        ensures
            final(self).wf(),
            final(self).same_shape(old(self)),
            r.1 == total(old(self).pending()),
            r.0 == (total(final(self).pending()) > 0),
            old(self).passes(
                old(self).queues(),
                old(self).state(),
                old(self).pending(),
                total(old(self).pending()),
                final(self).state(),
            ),
            pass_step(old(self).edges(), old(self).pending(), final(self).pending()),
            final(self).counters().len() == old(self).counters().len(),
            forall|i: int|
                0 <= i < final(self).counters().len() ==> (
                #[trigger] final(self).counters()[i]).dispatched == bumped(
                    old(self).counters()[i].dispatched,
                    old(self).pending()[i],
                ),
    {
        let n = self.nodes.len();
        let ghost q0 = self.pending();
        proof {
            self.lemma_wf();
        }
        // the lists that a pass works with are kept from pass to pass
        let mut quota: Vec<usize> = Vec::new();
        let mut outs: VecDeque<Output> = VecDeque::new();
        swap(&mut quota, &mut self.quota);
        swap(&mut outs, &mut self.outbox);
        quota.clear();
        outs.clear();
        proof {
            self.lemma_frame(old(self));
            assert(self.counters() =~= old(self).counters());
            assert(self.clients() =~= old(self).clients());
        }
        let mut k: usize = 0;
        while k < n
            invariant
                k <= n,
                n == self.nodes@.len(),
                quota@.len() == k,
                q0 == self.pending(),
                q0.len() == n,
                forall|j: int| 0 <= j < k ==> #[trigger] quota@[j] == q0[j],
            decreases n - k,
        {
            quota.push(self.nodes[k].input.len());
            k = k + 1;
        }
        let ghost mut rem: Seq<nat> = q0;
        let mut count: usize = 0;
        let mut i: usize = 0;
        while i < n
            invariant
                i <= n,
                n == self.names().len(),
                n == quota@.len(),
                q0 == old(self).pending(),
                forall|j: int| 0 <= j < n ==> #[trigger] quota@[j] == q0[j],
                forall|j: int| 0 <= j < i ==> #[trigger] rem[j] == 0,
                forall|j: int| i <= j < n ==> #[trigger] rem[j] == q0[j],
                self.in_pass(old(self), rem, count as nat),
                outs@.len() == 0,
            decreases n - i,
        {
            let mut left = quota[i];
            while left > 0
                invariant
                    i < n,
                    n == self.names().len(),
                    q0 == old(self).pending(),
                    left == rem[i as int],
                    left <= q0[i as int],
                    forall|j: int| 0 <= j < i ==> #[trigger] rem[j] == 0,
                    forall|j: int| i < j < n ==> #[trigger] rem[j] == q0[j],
                    self.in_pass(old(self), rem, count as nat),
                    outs@.len() == 0,
                decreases left,
            {
                let ghost before = *self;
                let ghost rem0 = rem;
                proof {
                    lemma_total_update(rem, i as int, (left - 1) as nat);
                }
                let pkt = self.take(i);
                let ghost taken = *self;
                proof {
                    taken.lemma_wf();
                    assert(taken.pending() =~= before.pending().update(
                        i as int,
                        (before.pending()[i as int] - 1) as nat,
                    ));
                }
                self.dispatch(i, pkt, &mut outs);
                let ghost sent = *self;
                proof {
                    assert(sent.pending() =~= taken.pending());
                }
                let ghost sent_outs = outs@;
                self.deliver_all(i, &mut outs);
                left = left - 1;
                count = count + 1;
                proof {
                    rem = rem0.update(i as int, left as nat);
                    let pre = before.state();
                    let now = self.state();
                    assert(sent.state() == Self::handed(
                        pre,
                        i as int,
                        sent.clients()[i as int],
                        sent.pool()@,
                    ));
                    assert(sent.sent_all(i as int, sent.state(), sent_outs) == old(self).sent_all(
                        i as int,
                        sent.state(),
                        sent_outs,
                    )) by {
                        old(self).lemma_sent_all_shape(&sent, i as int, sent.state(), sent_outs);
                    }
                    assert(pre.clients[i as int].handles(
                        pre.queues[i as int][0],
                        pre.pool,
                        sent.clients()[i as int],
                        sent.pool()@,
                        sent_outs,
                    ));
                    assert(old(self).handoff(pre, i as int, now));
                    assert(first_left(rem0, i as int));
                    assert(total(rem0) == total(rem) + 1);
                    assert(before.queues()[i as int][0] == old(self).queues()[i as int][q0[i as int]
                        - rem0[i as int] + 0]);
                    assert(q0[i as int] == old(self).queues()[i as int].len());
                    let start = old(self).queues();
                    assert forall|f: GraphState<N>| #[trigger]
                        old(self).passes(start, now, rem, total(rem), f) implies old(self).passes(
                        start,
                        old(self).state(),
                        q0,
                        total(q0),
                        f,
                    ) by {
                        assert(old(self).passes(start, pre, rem0, total(rem0), f));
                    }
                    assert forall|j: int, k: int| 0 <= j < n && 0 <= k < rem[j] implies #[trigger]
                        self.queues()[j][k] == old(self).queues()[j][q0[j] - rem[j] + k] by {
                        if j == i {
                            assert(before.queues()[j][k + 1]
                                == old(self).queues()[j][q0[j] - rem0[j]
                                + (k + 1)]);
                            assert(taken.queues()[j][k] == before.queues()[j][k + 1]);
                        } else {
                            assert(before.queues()[j][k] == old(self).queues()[j][q0[j] - rem0[j]
                                + k]);
                            assert(taken.queues()[j][k] == before.queues()[j][k]);
                        }
                        assert(before.pending()[j] >= rem0[j]);
                        assert(taken.pending()[j] == taken.queues()[j].len());
                        assert(sent.queues()[j][k] == taken.queues()[j][k]);
                        assert(self.queues()[j][k] == sent.queues()[j][k]);
                    }
                    assert forall|j: int|
                        0 <= j < n && #[trigger] self.pending()[j] > rem[j] implies exists|
                        src: int,
                        e: int,
                    |
                        0 <= src < n && q0[src] > 0 && 0 <= e < old(self).edges()[src].len()
                            && #[trigger] old(self).edges()[src][e] == j by {
                        if self.pending()[j] > sent.pending()[j] {
                            let e = choose|e: int|
                                0 <= e < sent.edges()[i as int].len()
                                    && #[trigger] sent.edges()[i as int][e]
                                    == j;
                            assert(old(self).edges()[i as int][e] == j);
                        } else {
                            assert(before.pending()[j] > rem0[j]);
                        }
                    }
                    assert forall|j: int| 0 <= j < n implies (
                    #[trigger] self.counters()[j]).dispatched == bumped(
                        old(self).counters()[j].dispatched,
                        (q0[j] - rem[j]) as nat,
                    ) by {
                        assert(sent.counters()[j].dispatched == taken.counters()[j].dispatched);
                        assert(before.counters()[j].dispatched == bumped(
                            old(self).counters()[j].dispatched,
                            (q0[j] - rem0[j]) as nat,
                        ));
                    }
                }
            }
            i = i + 1;
        }
        proof {
            lemma_total_zero(rem);
            lemma_total_zero(self.pending());
            assert(old(self)
                .passes(old(self).queues(), self.state(), rem, total(rem), self.state()));
            assert forall|j: int| 0 <= j < n && #[trigger] self.pending()[j] > 0 implies exists|
                src: int,
                e: int,
            |
                0 <= src < n && q0[src] > 0 && 0 <= e < old(self).edges()[src].len()
                    && #[trigger] old(self).edges()[src][e] == j by {
                assert(self.pending()[j] > rem[j]);
            }
        }
        let ghost ran = *self;
        swap(&mut quota, &mut self.quota);
        swap(&mut outs, &mut self.outbox);
        proof {
            self.lemma_frame(&ran);
            assert(self.counters() =~= ran.counters());
            assert(self.clients() =~= ran.clients());
            assert(self.pending() =~= ran.pending());
        }
        (self.waiting > 0, count)
    }

    /// Registers `node` under the name and with the edges that it gives
    /// itself, with fresh counters.
    pub fn add_node(&mut self, node: N) -> (r: Result<usize, GraphError>)
        requires
            old(self).wf(),
            node.inv(),
        ensures
            final(self).wf(),
            match r {
                Ok(i) => {
                    &&& !old(self).is_finalized()
                    &&& !old(self).names().contains(node.spec_name())
                    &&& i == old(self).names().len()
                    &&& final(self).names() == old(self).names().push(node.spec_name())
                    &&& final(self).next_names() == old(self).next_names().push(
                        node.spec_next_names(),
                    )
                    &&& final(self).edges() == old(self).edges().push(Seq::<int>::empty())
                    &&& final(self).queues() == old(self).queues().push(Seq::<Packet>::empty())
                    &&& final(self).counters() == old(self).counters().push(
                        GnodeCntrs { dispatched: 0, forwarded: 0, dropped: 0 },
                    )
                    &&& final(self).clients() == old(self).clients().push(node)
                    &&& final(self).pool() == old(self).pool()
                    &&& final(self).spec_thread() == old(self).spec_thread()
                    &&& !final(self).is_finalized()
                },
                Err(e) => {
                    &&& *final(self) == *old(self)
                    &&& old(self).is_finalized() ==> e == GraphError::Finalized
                    &&& !old(self).is_finalized()
                        ==> e == GraphError::Duplicate
                            && old(self).names().contains(node.spec_name())
                },
            },
    {
        let init = GnodeInit::of(&node);
        self.add(node, init)
    }

    /// A graph of the same shape for the forwarding thread `thread`, over
    /// `pool`: the same names and edges, resolved where this graph's are;
    /// for each node a copy made for that thread; no packet waiting, and
    /// nothing counted. This graph stays as it is.
    pub fn clone(&self, thread: usize, pool: P) -> (g: Self)
        requires
            self.wf(),
            pool.wf(),
        ensures
            g.wf(),
            g.spec_thread() == thread,
            g.pool() == pool,
            g.names() == self.names(),
            g.next_names() == self.next_names(),
            g.edges() == self.edges(),
            g.is_finalized() == self.is_finalized(),
            g.queues().len() == self.names().len(),
            total(g.pending()) == 0,
            g.counters().len() == self.names().len(),
            g.clients().len() == self.names().len(),
            forall|i: int|
                #![trigger g.queues()[i]]
                #![trigger g.counters()[i]]
                #![trigger g.clients()[i]]
                0 <= i < self.names().len() ==> {
                    &&& g.queues()[i] == Seq::<Packet>::empty()
                    &&& g.counters()[i] == (GnodeCntrs { dispatched: 0, forwarded: 0, dropped: 0 })
                    &&& g.clients()[i].spec_name() == self.clients()[i].spec_name()
                    &&& g.clients()[i].spec_next_names() == self.clients()[i].spec_next_names()
                },
    {
        let mut nodes: Vec<Gnode<N>> = Vec::new();
        let n = self.nodes.len();
        let mut i: usize = 0;
        while i < n
            invariant
                i <= n,
                n == self.nodes@.len(),
                self.wf(),
                nodes@.len() == i,
                forall|j: int|
                    0 <= j < i ==> {
                        &&& (#[trigger] nodes@[j]).client.inv()
                        &&& nodes@[j].client.spec_name() == self.nodes@[j].client.spec_name()
                        &&& nodes@[j].client.spec_next_names()
                            == self.nodes@[j].client.spec_next_names()
                        &&& nodes@[j].name == self.nodes@[j].name
                        &&& nodes@[j].next_names@ == self.nodes@[j].next_names@
                        &&& nodes@[j].next_nodes@ == self.nodes@[j].next_nodes@
                        &&& nodes@[j].input@ == Seq::<Packet>::empty()
                        &&& nodes@[j].cntrs == (GnodeCntrs {
                            dispatched: 0,
                            forwarded: 0,
                            dropped: 0,
                        })
                    },
            decreases n - i,
        {
            assert(self.nodes@[i as int].client.inv());
            let from = &self.nodes[i];
            nodes.push(
                Gnode {
                    client: from.client.clone_for(thread),
                    name: from.name.clone(),
                    next_names: copy_names(&from.next_names),
                    next_nodes: copy_places(&from.next_nodes),
                    input: VecDeque::new(),
                    cntrs: GnodeCntrs::new(),
                },
            );
            i = i + 1;
        }
        let g = Graph {
            thread,
            nodes,
            pool,
            finalized: self.finalized,
            waiting: 0,
            quota: Vec::new(),
            outbox: VecDeque::new(),
        };
        proof {
            assert(g.names() =~= self.names());
            assert(g.next_names() =~~= self.next_names());
            assert(g.edges() =~~= self.edges());
            assert(g.pending() =~= Seq::new(n as nat, |i: int| 0nat));
            lemma_total_zero(g.pending());
            assert forall|a: int, b: int| 0 <= a < b < g.nodes@.len() implies (
            #[trigger] g.nodes@[a]).name@ != (#[trigger] g.nodes@[b]).name@ by {
                assert(self.nodes@[a].name@ != self.nodes@[b].name@);
            }
            if !self.finalized {
                assert forall|a: int| 0 <= a < g.nodes@.len() implies (
                #[trigger] g.nodes@[a]).next_nodes@.len() == 0 by {
                    assert(self.nodes@[a].next_nodes@.len() == 0);
                }
            }
        }
        g
    }

    /// Hands a message from the control plane to the node at place `node`.
    /// The graph's shape, its packets and its counts stay as they are.
    pub fn control(&mut self, node: usize, msg: &R2Msg)
        requires
            old(self).wf(),
            node < old(self).names().len(),
        ensures
            final(self).wf(),
            final(self).same_shape(old(self)),
            final(self).queues() == old(self).queues(),
            final(self).counters() == old(self).counters(),
            final(self).pool() == old(self).pool(),
            final(self).clients() == old(self).clients().update(
                node as int,
                final(self).clients()[node as int],
            ),
            old(self).clients()[node as int].hears(*msg, final(self).clients()[node as int]),
    {
        assert(self.nodes@[node as int].client.inv());
        self.nodes[node].client.control(msg);
        proof {
            assert(self.clients() =~= old(self).clients().update(
                node as int,
                self.clients()[node as int],
            ));
            assert forall|k: int| 0 <= k < self.nodes@.len() implies (
            #[trigger] self.nodes@[k]).client.inv() by {
                if k != node {
                    assert(old(self).nodes@[k].client.inv());
                }
            }
            self.lemma_frame(old(self));
        }
    }
}

} // verus!
