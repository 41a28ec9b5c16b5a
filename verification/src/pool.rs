//! Packet pools: bounded stores that hand out packets and particles and
//! take them back, without ever growing.

use vstd::prelude::*;
use crossbeam_queue::ArrayQueue;
use crossbeam_queue::PushError;
use crate::packet::Packet;
use crate::particle::{Particle, least, reserved};

verus! {

/// The most packets that a heap pool can be made for.
pub const MAX_PACKETS: usize = 1048576;

/// The counts of a pool: what it was made with and what is free now.
pub struct PoolView {
    /// The packets that can be handed out now.
    pub free_packets: nat,
    /// The particles that can be handed out now.
    pub free_particles: nat,
    /// The packets that the pool was made with.
    pub num_packets: nat,
    /// The particles that the pool was made with.
    pub num_particles: nat,
    /// The size of each of the pool's particles.
    pub particle_sz: nat,
}

impl PoolView {
    /// Nothing more is free than the pool was made with.
    pub open spec fn bounded(self) -> bool {
        &&& self.free_packets <= self.num_packets
        &&& self.free_particles <= self.num_particles
    }

    /// Both states have the same capacities and particle size.
    pub open spec fn same_limits(self, other: PoolView) -> bool {
        &&& self.num_packets == other.num_packets
        &&& self.num_particles == other.num_particles
        &&& self.particle_sz == other.particle_sz
    }

    /// The particles that were handed out and have not come back.
    pub open spec fn outstanding_particles(self) -> int {
        self.num_particles - self.free_particles
    }

    /// The packets that were handed out and have not come back.
    pub open spec fn outstanding_packets(self) -> int {
        self.num_packets - self.free_packets
    }

    /// The state after `packets` packets and `particles` particles were
    /// handed out.
    pub open spec fn took(self, packets: nat, particles: nat) -> PoolView {
        PoolView {
            free_packets: (self.free_packets - packets) as nat,
            free_particles: (self.free_particles - particles) as nat,
            ..self
        }
    }

    /// The state after `packets` packets and `particles` particles came
    /// back: what the pool has no room for is let go.
    pub open spec fn gave(self, packets: nat, particles: nat) -> PoolView {
        PoolView {
            free_packets: least(self.free_packets + packets, self.num_packets),
            free_particles: least(self.free_particles + particles, self.num_particles),
            ..self
        }
    }
}

/// What a source of packets and particles offers to the nodes of a graph.
/// A pool has a fixed number of packets and of particles. When none is
/// free it says so at once: it never waits and never grows.
pub trait PacketPool: Sized {
    /// The pool's counts are consistent.
    spec fn wf(&self) -> bool;

    /// The pool's counts.
    spec fn view(&self) -> PoolView;

    /// A pool never has more free than it was made with.
    proof fn lemma_bound(&self)
        requires
            self.wf(),
        ensures
            self@.bounded(),
    ;

    /// Hands out a packet of one empty particle with
    /// `reserved(headroom, particle size)` bytes of headroom, if a packet
    /// and a particle are free. Else nothing changes.
    fn pkt(&mut self, headroom: usize) -> (r: Option<Packet>)
        requires
            old(self).wf(),
        ensures
            final(self).wf(),
            r.is_some() == (old(self)@.free_packets > 0 && old(self)@.free_particles > 0),
            match r {
                Some(p) => {
                    &&& p.wf()
                    &&& p.chunks() == seq![Seq::<u8>::empty()]
                    &&& p.spec_headroom() == reserved(headroom as nat, old(self)@.particle_sz)
                    &&& p.spec_particle_sz() == old(self)@.particle_sz
                    &&& final(self)@ == old(self)@.took(1, 1)
                },
                None => final(self)@ == old(self)@,
            },
    ;

    /// Hands out an empty particle with `reserved(headroom, particle size)`
    /// bytes of headroom, if one is free. Else nothing changes.
    fn particle(&mut self, headroom: usize) -> (r: Option<Particle>)
        requires
            old(self).wf(),
        ensures
            final(self).wf(),
            r.is_some() == (old(self)@.free_particles > 0),
            match r {
                Some(p) => {
                    &&& p.wf()
                    &&& p@ == Seq::<u8>::empty()
                    &&& p.spec_size() == old(self)@.particle_sz
                    &&& p.spec_headroom() == reserved(headroom as nat, old(self)@.particle_sz)
                    &&& final(self)@ == old(self)@.took(0, 1)
                },
                None => final(self)@ == old(self)@,
            },
    ;

    /// Takes a packet back. Its particles become free again, if they are of
    /// this pool's size and as far as the pool has room for them; so does
    /// the packet itself, if the pool has room for it.
    fn free_pkt(&mut self, pkt: Packet)
        requires
            old(self).wf(),
            pkt.wf(),
        ensures
            final(self).wf(),
            final(self)@ == old(self)@.gave(
                1,
                if pkt.spec_particle_sz() == old(self)@.particle_sz {
                    pkt.chunks().len()
                } else {
                    0
                },
            ),
    ;

    /// Takes a particle back. It becomes free again if it is of this pool's
    /// size and the pool has room for it.
    fn free_part(&mut self, part: Particle)
        requires
            old(self).wf(),
            part.wf(),
        ensures
            final(self).wf(),
            final(self)@ == old(self)@.gave(
                0,
                if part.spec_size() == old(self)@.particle_sz {
                    1
                } else {
                    0
                },
            ),
    ;

    /// The size of each of the pool's particles.
    fn particle_sz(&self) -> (n: usize)
        ensures
            n == self@.particle_sz,
    ;
}

/// What is outstanding lies between nothing and the capacity.
pub proof fn lemma_pool_bound<P: PacketPool>(p: &P)
    requires
        p.wf(),
    ensures
        0 <= p@.outstanding_particles() <= p@.num_particles,
        0 <= p@.outstanding_packets() <= p@.num_packets,
{
    p.lemma_bound();
}

/// What one call of a pool does to its counts: it hands out packets and
/// particles that are free, or takes some back.
pub open spec fn pool_step(before: PoolView, after: PoolView) -> bool {
    ||| exists|packets: nat, particles: nat|
        packets <= before.free_packets && particles <= before.free_particles && after
            == #[trigger] before.took(packets, particles)
    ||| exists|packets: nat, particles: nat| after == #[trigger] before.gave(packets, particles)
}

/// Whatever is allocated and freed, and in whatever order, what is
/// outstanding never exceeds the capacity, and the capacity stays what it
/// was. `states` holds the pool's counts before the first call and after
/// each call.
pub proof fn lemma_pool_steps(states: Seq<PoolView>, t: int)
    requires
        states.len() > 0,
        states[0].bounded(),
        forall|k: int| 0 <= k < states.len() - 1 ==> pool_step(#[trigger] states[k], states[k + 1]),
        0 <= t < states.len(),
    ensures
        states[t].bounded(),
        states[t].same_limits(states[0]),
        0 <= states[t].outstanding_particles() <= states[0].num_particles,
        0 <= states[t].outstanding_packets() <= states[0].num_packets,
    decreases t,
{
    if t > 0 {
        lemma_pool_steps(states, t - 1);
        assert(pool_step(states[t - 1], states[t - 1 + 1]));
    }
}

/// The bounded queue of `crossbeam_queue`, carried as it is: of what a
/// queue holds nothing is known but through `queued` and `queue_limit`.
#[verifier::external_type_specification]
#[verifier::external_body]
#[verifier::reject_recursive_types(T)]
pub struct ExArrayQueue<T>(ArrayQueue<T>);

/// The packets that wait in a queue, the one that leaves next first.
pub uninterp spec fn queued(q: &ArrayQueue<Packet>) -> Seq<Packet>;

/// The number of packets that a queue was made to hold.
pub uninterp spec fn queue_limit(q: &ArrayQueue<Packet>) -> nat;

/// `ArrayQueue::new`: an empty queue that holds up to `cap` packets. The
/// outside function panics on a capacity of zero, hence the lower bound; the
/// upper bound keeps the buffer it allocates within what can be allocated.
#[verifier::external_body]
fn queue_new(cap: usize) -> (q: ArrayQueue<Packet>)
    requires
        0 < cap <= MAX_PACKETS,
    ensures
        queued(&q) == Seq::<Packet>::empty(),
        queue_limit(&q) == cap,
{
    ArrayQueue::new(cap)
}

/// `ArrayQueue::push`, on a queue that no other thread uses: the packet goes
/// to the back of the queue, or comes back when the queue already holds as
/// many as it was made for.
#[verifier::external_body]
fn queue_push(q: &mut ArrayQueue<Packet>, pkt: Packet) -> (r: Result<(), Packet>)
    ensures
        queue_limit(final(q)) == queue_limit(old(q)),
        match r {
            Ok(_) => queued(old(q)).len() < queue_limit(old(q))
                && queued(final(q)) == queued(old(q)).push(pkt),
            Err(back) => queued(old(q)).len() == queue_limit(old(q)) && back == pkt
                && queued(final(q)) == queued(old(q)),
        },
{
    match q.push(pkt) {
        Ok(()) => Ok(()),
        Err(PushError(back)) => Err(back),
    }
}

/// `ArrayQueue::pop`, on a queue that no other thread uses: the packet at
/// the front leaves the queue, if there is one.
#[verifier::external_body]
fn queue_pop(q: &mut ArrayQueue<Packet>) -> (r: Option<Packet>)
    ensures
        queue_limit(final(q)) == queue_limit(old(q)),
        match r {
            Some(pkt) => queued(old(q)).len() > 0 && pkt == queued(old(q))[0] && queued(final(q))
                == queued(old(q)).skip(1),
            None => queued(old(q)).len() == 0 && queued(final(q)) == queued(old(q)),
        },
{
    q.pop().ok()
}

/// `ArrayQueue::len`, on a queue that no other thread uses: the number of
/// packets that wait in it.
#[verifier::external_body]
fn queue_len(q: &ArrayQueue<Packet>) -> (n: usize)
    ensures
        n == queued(q).len(),
{
    q.len()
}

/// A pool whose particles lie in ordinary memory. Its free packets wait in
/// a bounded queue, its free particles in a list that never grows beyond
/// the number the pool was made with.
pub struct PktsHeap {
    shells: ArrayQueue<Packet>,
    parts: Vec<Particle>,
    num_packets: usize,
    num_particles: usize,
    particle_sz: usize,
}

impl PktsHeap {
    /// A pool of `num_packets` packets and `num_particles` particles of
    /// `particle_sz` bytes each, all of them free. There is no pool of no
    /// packets, nor of more than `MAX_PACKETS`.
    pub fn new(num_packets: usize, num_particles: usize, particle_sz: usize) -> (r: Option<
        PktsHeap,
    >)
        ensures
            r.is_some() == (0 < num_packets <= MAX_PACKETS),
            match r {
                Some(pool) => {
                    &&& pool.wf()
                    &&& pool@ == PoolView {
                        free_packets: num_packets as nat,
                        free_particles: num_particles as nat,
                        num_packets: num_packets as nat,
                        num_particles: num_particles as nat,
                        particle_sz: particle_sz as nat,
                    }
                },
                None => true,
            },
    {
        if num_packets == 0 || num_packets > MAX_PACKETS {
            return None;
        }
        let mut shells = queue_new(num_packets);
        let mut i: usize = 0;
        while i < num_packets
            invariant
                i <= num_packets,
                queue_limit(&shells) == num_packets,
                queued(&shells).len() == i,
                forall|k: int| 0 <= k < i ==> (#[trigger] queued(&shells)[k]).is_shell(),
            decreases num_packets - i,
        {
            let r = queue_push(&mut shells, Packet::shell());
            assert(r.is_ok());
            i = i + 1;
        }
        let mut parts: Vec<Particle> = Vec::new();
        let mut j: usize = 0;
        while j < num_particles
            invariant
                j <= num_particles,
                parts@.len() == j,
                forall|k: int|
                    0 <= k < j ==> (#[trigger] parts@[k]).wf() && parts@[k].spec_size()
                        == particle_sz,
            decreases num_particles - j,
        {
            parts.push(Particle::new(particle_sz, 0));
            j = j + 1;
        }
        Some(PktsHeap { shells, parts, num_packets, num_particles, particle_sz })
    }

    /// The packets that can be handed out now.
    pub fn free_packet_count(&self) -> (n: usize)
        requires
            self.wf(),
        ensures
            n == self@.free_packets,
    {
        queue_len(&self.shells)
    }

    /// The particles that can be handed out now.
    pub fn free_particle_count(&self) -> (n: usize)
        requires
            self.wf(),
        ensures
            n == self@.free_particles,
    {
        self.parts.len()
    }

    /// The packets that the pool was made with.
    pub fn packet_capacity(&self) -> (n: usize)
        ensures
            n == self@.num_packets,
    {
        self.num_packets
    }

    /// The particles that the pool was made with.
    pub fn particle_capacity(&self) -> (n: usize)
        ensures
            n == self@.num_particles,
    {
        self.num_particles
    }
}

impl PacketPool for PktsHeap {
    closed spec fn wf(&self) -> bool {
        &&& queue_limit(&self.shells) == self.num_packets
        &&& queued(&self.shells).len() <= self.num_packets
        &&& forall|k: int|
            0 <= k < queued(&self.shells).len() ==> (#[trigger] queued(&self.shells)[k]).is_shell()
        &&& self.parts@.len() <= self.num_particles
        &&& forall|k: int|
            0 <= k < self.parts@.len() ==> (#[trigger] self.parts@[k]).wf()
                && self.parts@[k].spec_size() == self.particle_sz
    }

    closed spec fn view(&self) -> PoolView {
        PoolView {
            free_packets: queued(&self.shells).len(),
            free_particles: self.parts@.len(),
            num_packets: self.num_packets as nat,
            num_particles: self.num_particles as nat,
            particle_sz: self.particle_sz as nat,
        }
    }

    proof fn lemma_bound(&self) {
    }

    fn pkt(&mut self, headroom: usize) -> (r: Option<Packet>) {
        if self.parts.len() == 0 {
            return None;
        }
        match queue_pop(&mut self.shells) {
            None => None,
            Some(shell) => {
                let mut shell = shell;
                assert(old(self).parts@.last().wf());
                let mut part = self.parts.pop().unwrap();
                part.reset(headroom);
                shell.arm(part);
                Some(shell)
            },
        }
    }

    fn particle(&mut self, headroom: usize) -> (r: Option<Particle>) {
        match self.parts.pop() {
            None => None,
            Some(part) => {
                let mut part = part;
                assert(old(self).parts@.last().wf());
                part.reset(headroom);
                Some(part)
            },
        }
    }

    fn free_pkt(&mut self, pkt: Packet) {
        let mut pkt = pkt;
        proof {
            pkt.lemma_layout();
        }
        let same = pkt.particle_sz() == self.particle_sz;
        let ghost total = pkt.chunks().len();
        while pkt.num_particles() > 0
            invariant
                self.wf(),
                pkt.loose(),
                pkt.chunks().len() <= total,
                same == (pkt.spec_particle_sz() == self@.particle_sz) || pkt.chunks().len() == 0,
                self@ == old(self)@.gave(
                    0,
                    if same {
                        (total - pkt.chunks().len()) as nat
                    } else {
                        0
                    },
                ),
            decreases pkt.chunks().len(),
        {
            match pkt.strip() {
                Some(part) => {
                    if same {
                        self.free_part(part);
                    }
                },
                None => {},
            }
        }
        let _ = queue_push(&mut self.shells, pkt);
    }

    fn free_part(&mut self, part: Particle) {
        if part.size() == self.particle_sz && self.parts.len() < self.num_particles {
            let mut part = part;
            part.reset(0);
            self.parts.push(part);
        }
    }

    fn particle_sz(&self) -> (n: usize) {
        self.particle_sz
    }
}

/// A pool that holds nothing: every request finds it exhausted, and what
/// is given to it is let go. It stands where a pool over memory of another
/// kind is to come.
pub struct R2PktPool {}

impl PacketPool for R2PktPool {
    open spec fn wf(&self) -> bool {
        true
    }

    open spec fn view(&self) -> PoolView {
        PoolView {
            free_packets: 0,
            free_particles: 0,
            num_packets: 0,
            num_particles: 0,
            particle_sz: 0,
        }
    }

    proof fn lemma_bound(&self) {
    }

    fn pkt(&mut self, _headroom: usize) -> (r: Option<Packet>) {
        None
    }

    fn particle(&mut self, _headroom: usize) -> (r: Option<Particle>) {
        None
    }

    fn free_pkt(&mut self, _pkt: Packet) {
    }

    fn free_part(&mut self, _part: Particle) {
    }

    fn particle_sz(&self) -> (n: usize) {
        0
    }
}

} // verus!
