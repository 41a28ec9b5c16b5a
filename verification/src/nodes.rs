//! A processing stage that comes with the graph.

use vstd::prelude::*;
use std::collections::VecDeque;
use crate::graph::{bumped, copy_names, Node, Output};
use crate::msg::R2Msg;
use crate::packet::Packet;
use crate::pool::{PacketPool, PoolView};
use crate::text::views;

verus! {

/// A stage that spreads the packets it is handed over its edges: a packet
/// of `n` bytes leaves on the edge at place `n` modulo the number of edges.
/// A stage without edges is where packets leave the graph: it gives each
/// one back to the pool.
pub struct Mux {
    name: String,
    next_names: Vec<String>,
    thread: usize,
    sent: u64,
    consumed: u64,
    told: u64,
}

impl Mux {
    /// A stage called `name` with edges to the stages called `next_names`.
    pub fn new(name: &str, next_names: Vec<String>) -> (mux: Mux)
        ensures
            mux.spec_name() == name@,
            mux.spec_next_names() == views(next_names@),
            mux.spec_sent() == 0,
            mux.spec_consumed() == 0,
            mux.spec_told() == 0,
    {
        Mux { name: String::from_str(name), next_names, thread: 0, sent: 0, consumed: 0, told: 0 }
    }

    /// The messages from the control plane that the stage has taken.
    pub closed spec fn spec_told(&self) -> u64 {
        self.told
    }

    /// The messages from the control plane that the stage has taken.
    pub fn told(&self) -> (n: u64)
        ensures
            n == self.spec_told(),
    {
        self.told
    }

    /// The packets that the stage has sent on.
    pub closed spec fn spec_sent(&self) -> u64 {
        self.sent
    }

    /// The packets that the stage has given back to the pool.
    pub closed spec fn spec_consumed(&self) -> u64 {
        self.consumed
    }

    /// The edge that a packet of `len` bytes leaves on, if the stage has
    /// an edge.
    pub open spec fn spec_edge(&self, len: nat) -> Option<nat> {
        if self.spec_next_names().len() == 0 {
            None
        } else {
            Some(len % self.spec_next_names().len())
        }
    }

    /// The packets that the stage has sent on.
    pub fn sent(&self) -> (n: u64)
        ensures
            n == self.spec_sent(),
    {
        self.sent
    }

    /// The packets that the stage has given back to the pool.
    pub fn consumed(&self) -> (n: u64)
        ensures
            n == self.spec_consumed(),
    {
        self.consumed
    }
}

impl Node for Mux {
    open spec fn inv(&self) -> bool {
        true
    }

    closed spec fn spec_name(&self) -> Seq<char> {
        self.name@
    }

    closed spec fn spec_next_names(&self) -> Seq<Seq<char>> {
        views(self.next_names@)
    }

    fn name(&self) -> (name: String) {
        self.name.clone()
    }

    fn next_names(&self) -> (names: Vec<String>) {
        copy_names(&self.next_names)
    }

    fn clone_for(&self, thread: usize) -> (copy: Self)
        ensures
            copy.spec_sent() == 0,
            copy.spec_consumed() == 0,
            copy.spec_told() == 0,
    {
        Mux {
            name: self.name.clone(),
            next_names: copy_names(&self.next_names),
            thread,
            sent: 0,
            consumed: 0,
            told: 0,
        }
    }

    /// A message is counted, whatever it says.
    open spec fn hears(&self, msg: R2Msg, after: Self) -> bool {
        &&& after.spec_name() == self.spec_name()
        &&& after.spec_next_names() == self.spec_next_names()
        &&& after.spec_told() == bumped(self.spec_told(), 1)
        &&& after.spec_sent() == self.spec_sent()
        &&& after.spec_consumed() == self.spec_consumed()
    }

    fn control(&mut self, _msg: &R2Msg) {
        self.told = self.told.saturating_add(1);
    }

    /// A packet leaves on the edge that its length selects, and is counted
    /// as sent; where the stage has no edge, the packet goes back to the
    /// pool and is counted as consumed.
    open spec fn handles(
        &self,
        pkt: Packet,
        pool: PoolView,
        after: Self,
        pool_after: PoolView,
        out: Seq<Output>,
    ) -> bool {
        &&& after.spec_name() == self.spec_name()
        &&& after.spec_next_names() == self.spec_next_names()
        &&& after.spec_told() == self.spec_told()
        &&& match self.spec_edge(pkt@.len()) {
            Some(edge) => {
                &&& out == seq![Output { edge: edge as usize, pkt }]
                &&& pool_after == pool
                &&& after.spec_sent() == bumped(self.spec_sent(), 1)
                &&& after.spec_consumed() == self.spec_consumed()
            },
            None => {
                &&& out == Seq::<Output>::empty()
                &&& pool_after == pool.gave(
                    1,
                    if pkt.spec_particle_sz() == pool.particle_sz {
                        pkt.chunks().len()
                    } else {
                        0
                    },
                )
                &&& after.spec_sent() == self.spec_sent()
                &&& after.spec_consumed() == bumped(self.spec_consumed(), 1)
            },
        }
    }

    fn process<P: PacketPool>(&mut self, pkt: Packet, pool: &mut P, out: &mut VecDeque<Output>) {
        let edges = self.next_names.len();
        if edges == 0 {
            pool.free_pkt(pkt);
            self.consumed = self.consumed.saturating_add(1);
            assert(out@ =~= Seq::<Output>::empty());
        } else {
            let edge = pkt.len() % edges;
            out.push_back(Output { edge, pkt });
            self.sent = self.sent.saturating_add(1);
            assert(out@ =~= seq![Output { edge, pkt }]);
        }
    }
}

} // verus!
