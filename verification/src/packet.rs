//! Packets: chains of particles that read as one stream of bytes.

use vstd::prelude::*;
use vstd::arithmetic::div_mod::{lemma_basic_div, lemma_div_plus_one};
use crate::particle::{reserved, Particle};
use crate::pool::PacketPool;

verus! {

/// The particles of `psz` bytes that it takes to hold `rest` bytes.
pub open spec fn chained(rest: nat, psz: nat) -> nat {
    if rest == 0 || psz == 0 {
        0
    } else {
        ((rest - 1) / (psz as int) + 1) as nat
    }
}

/// One particle holds up to its size.
pub proof fn lemma_chained_one(rest: nat, psz: nat)
    requires
        0 < rest <= psz,
    ensures
        chained(rest, psz) == 1,
{
    lemma_basic_div(rest - 1, psz as int);
}

/// Each further particle takes its size off what is left.
pub proof fn lemma_chained_step(rest: nat, psz: nat)
    requires
        0 < psz < rest,
    ensures
        chained(rest, psz) == chained((rest - psz) as nat, psz) + 1,
{
    lemma_div_plus_one(rest - psz - 1, psz as int);
    assert(psz + (rest - psz - 1) == rest - 1);
}

/// An ordered chain of particles. The packet's bytes are the data of its
/// particles, one after the other. A packet is moved from owner to owner
/// and never shared.
pub struct Packet {
    particles: Vec<Particle>,
    length: usize,
}

impl View for Packet {
    type V = Seq<u8>;

    /// The bytes of the packet.
    open spec fn view(&self) -> Seq<u8> {
        self.chunks().flatten()
    }
}

impl Packet {
    /// The data of each particle, in the order of the chain.
    pub closed spec fn chunks(&self) -> Seq<Seq<u8>> {
        Seq::new(self.particles@.len(), |i: int| self.particles@[i]@)
    }

    /// The headroom of each particle, in the order of the chain.
    pub closed spec fn headrooms(&self) -> Seq<nat> {
        Seq::new(self.particles@.len(), |i: int| self.particles@[i].spec_headroom())
    }

    /// The size of the packet's particles.
    pub closed spec fn spec_particle_sz(&self) -> nat {
        if self.particles@.len() > 0 {
            self.particles@[0].spec_size()
        } else {
            0
        }
    }

    /// The free bytes in front of the packet's first byte.
    pub open spec fn spec_headroom(&self) -> nat {
        if self.headrooms().len() > 0 {
            self.headrooms()[0]
        } else {
            0
        }
    }

    /// The free bytes behind the packet's last byte, in its last particle.
    pub open spec fn spec_tailroom(&self) -> nat {
        if self.chunks().len() > 0 {
            (self.spec_particle_sz() - self.headrooms().last() - self.chunks().last().len()) as nat
        } else {
            0
        }
    }

    /// Every particle is sound, and all are of one size.
    pub closed spec fn loose(&self) -> bool {
        forall|i: int|
            0 <= i < self.particles@.len() ==> (#[trigger] self.particles@[i]).wf()
                && self.particles@[i].spec_size() == self.spec_particle_sz()
    }

    /// A packet without particles, as it waits in a pool.
    pub open spec fn is_shell(&self) -> bool {
        self.chunks().len() == 0
    }

    /// The packet has a particle; all its particles are sound and of one
    /// size; each but the last is filled to its end; each but the first
    /// has no headroom; a particle that was chained on holds data.
    pub closed spec fn wf(&self) -> bool {
        &&& self.particles@.len() >= 1
        &&& self.loose()
        &&& forall|i: int|
            0 <= i < self.particles@.len() - 1 ==> (#[trigger] self.particles@[i]).spec_tailroom()
                == 0
        &&& forall|i: int|
            1 <= i < self.particles@.len() ==> (#[trigger] self.particles@[i]).spec_headroom()
                == 0
        &&& self.particles@.len() > 1 ==> self.particles@.last()@.len() > 0
        &&& self.length == self@.len()
    }

    /// What soundness says of the layout, in terms of the chunks.
    pub proof fn lemma_layout(&self)
        requires
            self.wf(),
        ensures
            self.chunks().len() >= 1,
            self.headrooms().len() == self.chunks().len(),
            self.loose(),
            self@.len() <= usize::MAX,
            self.spec_particle_sz() <= usize::MAX,
            forall|i: int|
                0 <= i < self.chunks().len() ==> self.headrooms()[i] + (
                #[trigger] self.chunks()[i]).len() <= self.spec_particle_sz(),
            forall|i: int|
                0 <= i < self.chunks().len() - 1 ==> self.headrooms()[i] + (
                #[trigger] self.chunks()[i]).len() == self.spec_particle_sz(),
            forall|i: int| 1 <= i < self.chunks().len() ==> #[trigger] self.headrooms()[i] == 0,
            self.chunks().len() > 1 ==> self.chunks().last().len() > 0,
    {
        assert forall|i: int| 0 <= i < self.chunks().len() implies self.headrooms()[i] + (
        #[trigger] self.chunks()[i]).len() <= self.spec_particle_sz() by {
            assert(self.particles@[i].wf());
            self.particles@[i].lemma_layout();
        }
        assert forall|i: int| 0 <= i < self.chunks().len() - 1 implies self.headrooms()[i] + (
        #[trigger] self.chunks()[i]).len() == self.spec_particle_sz() by {
            assert(self.particles@[i].wf());
            assert(self.particles@[i].spec_tailroom() == 0);
            self.particles@[i].lemma_layout();
        }
        assert forall|i: int| 1 <= i < self.chunks().len() implies #[trigger] self.headrooms()[i]
            == 0 by {
            assert(self.particles@[i].spec_headroom() == 0);
        }
        assert(self.particles@[0].wf());
        self.particles@[0].lemma_layout();
    }

    /// A packet without particles.
    pub fn shell() -> (p: Packet)
        ensures
            p.is_shell(),
            p.loose(),
    {
        Packet { particles: Vec::new(), length: 0 }
    }

    /// Gives a shell its first particle, which holds no data yet.
    pub fn arm(&mut self, first: Particle)
        requires
            old(self).is_shell(),
            first.wf(),
            first@.len() == 0,
        ensures
            final(self).wf(),
            final(self).chunks() == seq![Seq::<u8>::empty()],
            final(self)@ == Seq::<u8>::empty(),
            final(self).spec_headroom() == first.spec_headroom(),
            final(self).spec_particle_sz() == first.spec_size(),
    {
        self.particles.push(first);
        self.length = 0;
        proof {
            assert(old(self).particles@.len() == 0);
            assert(self.particles@[0] == first);
            assert(first@ =~= Seq::<u8>::empty());
            assert(self.chunks() =~= seq![Seq::<u8>::empty()]);
            self.chunks().lemma_flatten_one_element();
            assert(self.particles@.last() == first);
        }
    }

    /// Takes the last particle off the chain, if there is one.
    pub fn strip(&mut self) -> (r: Option<Particle>)
        requires
            old(self).loose(),
        ensures
            final(self).loose(),
            r.is_some() == (old(self).chunks().len() > 0),
            match r {
                Some(part) => {
                    &&& part.wf()
                    &&& part.spec_size() == old(self).spec_particle_sz()
                    &&& part@ == old(self).chunks().last()
                    &&& part.spec_headroom() == old(self).headrooms().last()
                    &&& final(self).chunks() == old(self).chunks().drop_last()
                    &&& final(self).headrooms() == old(self).headrooms().drop_last()
                    &&& final(self).chunks().len() > 0
                        ==> final(self).spec_particle_sz() == old(self).spec_particle_sz()
                },
                None => final(self).chunks() == old(self).chunks(),
            },
    {
        let r = self.particles.pop();
        proof {
            if r.is_some() {
                assert(old(self).particles@.last().wf());
                assert(self.chunks() =~= old(self).chunks().drop_last());
                assert(self.headrooms() =~= old(self).headrooms().drop_last());
                assert forall|i: int| 0 <= i < self.particles@.len() implies (
                #[trigger] self.particles@[i]).wf() && self.particles@[i].spec_size()
                    == self.spec_particle_sz() by {
                    assert(old(self).particles@[i].wf());
                    assert(old(self).particles@[0].wf());
                }
            }
        }
        r
    }

    /// The number of bytes in the packet.
    pub fn len(&self) -> (n: usize)
        requires
            self.wf(),
        ensures
            n == self@.len(),
    {
        self.length
    }

    /// The number of particles in the chain.
    pub fn num_particles(&self) -> (n: usize)
        ensures
            n == self.chunks().len(),
    {
        self.particles.len()
    }

    /// The size of the packet's particles.
    pub fn particle_sz(&self) -> (n: usize)
        ensures
            n == self.spec_particle_sz(),
    {
        if self.particles.len() > 0 {
            self.particles[0].size()
        } else {
            0
        }
    }

    /// The particle at place `i` of the chain.
    pub fn particle(&self, i: usize) -> (part: &Particle)
        requires
            self.loose(),
            i < self.chunks().len(),
        ensures
            part.wf(),
            part@ == self.chunks()[i as int],
            part.spec_headroom() == self.headrooms()[i as int],
            part.spec_size() == self.spec_particle_sz(),
    {
        assert(self.particles@[i as int].wf());
        &self.particles[i]
    }

    /// The free bytes in front of the packet's first byte.
    pub fn headroom(&self) -> (n: usize)
        ensures
            n == self.spec_headroom(),
    {
        if self.particles.len() > 0 {
            self.particles[0].headroom()
        } else {
            0
        }
    }

    /// A copy of the packet's bytes, in order.
    pub fn data(&self) -> (bytes: Vec<u8>)
        requires
            self.wf(),
        ensures
            bytes@ == self@,
    {
        let mut bytes: Vec<u8> = Vec::new();
        let n = self.particles.len();
        let mut i: usize = 0;
        assert(self.chunks().take(0) =~= Seq::<Seq<u8>>::empty());
        while i < n
            invariant
                i <= n,
                n == self.particles@.len(),
                self.wf(),
                bytes@ == self.chunks().take(i as int).flatten(),
            decreases n - i,
        {
            assert(self.particles@[i as int].wf());
            let part = &self.particles[i];
            bytes.extend_from_slice(part.data());
            proof {
                let before = self.chunks().take(i as int);
                assert(self.chunks().take(i + 1) =~= before.push(self.chunks()[i as int]));
                before.lemma_flatten_push(self.chunks()[i as int]);
            }
            i = i + 1;
        }
        assert(self.chunks().take(n as int) =~= self.chunks());
        bytes
    }

    /// The particles that must be chained on before `n` more bytes fit.
    pub open spec fn spec_extra(&self, n: nat) -> nat {
        if n <= self.spec_tailroom() {
            0
        } else {
            chained((n - self.spec_tailroom()) as nat, self.spec_particle_sz())
        }
    }

    /// Whether `n` more bytes can be appended with particles from `pool`:
    /// they fit in the last particle, or the pool has particles of the
    /// packet's size, which is not zero, and enough of them are free.
    pub open spec fn fits<P: PacketPool>(&self, pool: &P, n: nat) -> bool {
        &&& self@.len() + n <= usize::MAX
        &&& n <= self.spec_tailroom() || {
            &&& pool@.particle_sz == self.spec_particle_sz()
            &&& self.spec_particle_sz() > 0
            &&& self.spec_extra(n) <= pool@.free_particles
        }
    }

    /// Appends `bytes` to the packet. They go into the tailroom of the last
    /// particle; what does not fit there goes into particles from `pool`,
    /// chained on one after the other, each filled before the next is
    /// begun. All of `bytes` is appended or nothing is: when the pool
    /// cannot supply every particle that is needed, the packet and the
    /// pool's counts stay as they were and the result is `false`.
    pub fn append<P: PacketPool>(&mut self, pool: &mut P, bytes: &[u8]) -> (ok: bool)
        requires
            old(self).wf(),
            old(pool).wf(),
        ensures
            final(self).wf(),
            final(pool).wf(),
            ok == old(self).fits(old(pool), bytes@.len()),
            ok ==> {
                &&& final(self)@ == old(self)@ + bytes@
                &&& final(self).chunks().len() == old(self).chunks().len() + old(self).spec_extra(
                    bytes@.len(),
                )
                &&& final(self).spec_headroom() == old(self).spec_headroom()
                &&& final(self).spec_particle_sz() == old(self).spec_particle_sz()
                &&& final(pool)@ == old(pool)@.took(0, old(self).spec_extra(bytes@.len()))
            },
            !ok ==> *final(self) == *old(self) && final(pool)@ == old(pool)@,
    {
        let n = bytes.len();
        proof {
            self.lemma_layout();
            pool.lemma_bound();
        }
        if n > usize::MAX - self.length {
            return false;
        }
        let count = self.particles.len();
        assert(self.particles@[count - 1].wf());
        let room = self.particles[count - 1].tailroom();
        let psz = self.particle_sz();
        let mut fresh: Vec<Particle> = Vec::new();
        if n > room {
            if psz == 0 || pool.particle_sz() != psz {
                return false;
            }
            let rest = n - room;
            assert((rest - 1) / (psz as int) <= rest - 1) by (nonlinear_arith)
                requires
                    rest >= 1,
                    psz > 0,
            ;
            let need = (rest - 1) / psz + 1;
            assert(need == old(self).spec_extra(n as nat));
            let mut short = false;
            while fresh.len() < need && !short
                invariant
                    pool.wf(),
                    fresh@.len() <= need,
                    fresh@.len() <= old(pool)@.free_particles,
                    pool@ == old(pool)@.took(0, fresh@.len()),
                    short ==> old(pool)@.free_particles == fresh@.len() && fresh@.len() < need,
                    forall|k: int|
                        0 <= k < fresh@.len() ==> {
                            &&& (#[trigger] fresh@[k]).wf()
                            &&& fresh@[k]@ == Seq::<u8>::empty()
                            &&& fresh@[k].spec_size() == psz
                            &&& fresh@[k].spec_headroom() == 0
                        },
                    psz == old(pool)@.particle_sz,
                    psz > 0,
                decreases need - fresh@.len() + (if short { 0int } else { 1int }),
            {
                match pool.particle(0) {
                    Some(part) => {
                        fresh.push(part);
                    },
                    None => {
                        short = true;
                    },
                }
            }
            if short {
                while fresh.len() > 0
                    invariant
                        pool.wf(),
                        fresh@.len() <= old(pool)@.free_particles,
                        pool@ == old(pool)@.took(0, fresh@.len()),
                        old(pool)@.bounded(),
                        forall|k: int|
                            0 <= k < fresh@.len() ==> {
                                &&& (#[trigger] fresh@[k]).wf()
                                &&& fresh@[k].spec_size() == psz
                            },
                        psz == old(pool)@.particle_sz,
                    decreases fresh@.len(),
                {
                    assert(fresh@.last().wf());
                    let part = fresh.pop().unwrap();
                    pool.free_part(part);
                }
                return false;
            }
        }
        let mut lastp = self.particles.pop().unwrap();
        let ghost stem = self.chunks();
        let ghost first_chunk = lastp@;
        assert(old(self).chunks() =~= stem.push(first_chunk));
        let mut off = lastp.fill(bytes, 0);
        self.particles.push(lastp);
        proof {
            let grown = first_chunk + bytes@.subrange(0, off as int);
            assert(self.chunks() =~= stem.push(grown));
            stem.lemma_flatten_push(first_chunk);
            stem.lemma_flatten_push(grown);
            assert(bytes@.subrange(0, off as int) =~= bytes@.take(off as int));
            assert(self@ =~= old(self)@ + bytes@.take(off as int));
            assert(self.headrooms() =~= old(self).headrooms());
            if off < n {
                if n - off > psz {
                    lemma_chained_step((n - off) as nat, psz as nat);
                }
            }
        }
        while off < n
            invariant
                off <= n,
                n == bytes@.len(),
                psz > 0 || off == n,
                psz == old(self).spec_particle_sz(),
                self.spec_particle_sz() == psz,
                self.particles@.len() >= 1,
                self.loose(),
                self@ == old(self)@ + bytes@.take(off as int),
                self.particles@.len() + fresh@.len()
                    == old(self).particles@.len() + old(self).spec_extra(n as nat),
                fresh@.len() == chained((n - off) as nat, psz as nat),
                off < n ==> self.particles@.last().spec_tailroom() == 0,
                self.particles@.len() > 1 ==> self.particles@.last()@.len() > 0,
                self.length == old(self).length,
                old(self).length + n <= usize::MAX,
                old(self).length == old(self)@.len(),
                forall|i: int|
                    0 <= i < self.particles@.len() - 1 ==> (
                    #[trigger] self.particles@[i]).spec_tailroom() == 0,
                forall|i: int|
                    1 <= i < self.particles@.len() ==> (
                    #[trigger] self.particles@[i]).spec_headroom() == 0,
                self.spec_headroom() == old(self).spec_headroom(),
                forall|k: int|
                    0 <= k < fresh@.len() ==> {
                        &&& (#[trigger] fresh@[k]).wf()
                        &&& fresh@[k]@ == Seq::<u8>::empty()
                        &&& fresh@[k].spec_size() == psz
                        &&& fresh@[k].spec_headroom() == 0
                    },
            decreases n - off,
        {
            proof {
                if n - off <= psz {
                    lemma_chained_one((n - off) as nat, psz as nat);
                } else {
                    lemma_chained_step((n - off) as nat, psz as nat);
                }
                assert(fresh@.last().wf());
            }
            let ghost before = self.chunks();
            let ghost prev = self.particles@;
            let ghost rooms = self.headrooms();
            let ghost sofar = self@;
            let mut part = fresh.pop().unwrap();
            let k = part.fill(bytes, off);
            self.particles.push(part);
            proof {
                let chunk = bytes@.subrange(off as int, off + k);
                assert(part@ =~= chunk);
                assert(self.chunks() =~= before.push(chunk));
                assert(self.headrooms() =~= rooms.push(0));
                before.lemma_flatten_push(chunk);
                assert(bytes@.take(off as int) + chunk =~= bytes@.take(off + k));
                assert(self@ =~= sofar + chunk);
                assert forall|i: int| 0 <= i < self.particles@.len() implies (
                #[trigger] self.particles@[i]).wf() && self.particles@[i].spec_size()
                    == self.spec_particle_sz() by {
                    if i < self.particles@.len() - 1 {
                        assert(prev[i].wf());
                        assert(prev[0].wf());
                    }
                }
                if n - (off + k) > 0 {
                    if n - (off + k) > psz {
                        lemma_chained_step((n - (off + k)) as nat, psz as nat);
                    }
                }
            }
            off = off + k;
        }
        self.length = self.length + n;
        proof {
            assert(bytes@.take(n as int) =~= bytes@);
        }
        true
    }

    /// Puts `bytes` in front of the packet, into the headroom of its first
    /// particle. Succeeds when the headroom takes all of them; else nothing
    /// changes.
    pub fn prepend(&mut self, bytes: &[u8]) -> (ok: bool)
        requires
            old(self).wf(),
        ensures
            final(self).wf(),
            ok == (bytes@.len() <= old(self).spec_headroom() && old(self)@.len() + bytes@.len()
                <= usize::MAX),
            ok ==> {
                &&& final(self)@ == bytes@ + old(self)@
                &&& final(self).chunks() == old(self).chunks().update(
                    0,
                    bytes@ + old(self).chunks()[0],
                )
                &&& final(self).spec_headroom() == old(self).spec_headroom() - bytes@.len()
                &&& final(self).spec_particle_sz() == old(self).spec_particle_sz()
            },
            !ok ==> *final(self) == *old(self),
    {
        let n = bytes.len();
        proof {
            self.lemma_layout();
        }
        if n > usize::MAX - self.length || n > self.particles[0].headroom() {
            return false;
        }
        assert(self.particles@[0].wf());
        let ok = self.particles[0].prepend(bytes);
        proof {
            let grown = bytes@ + old(self).chunks()[0];
            assert(self.chunks() =~= old(self).chunks().update(0, grown));
            assert(self.chunks().drop_first() =~= old(self).chunks().drop_first());
            assert(self@ =~= bytes@ + old(self)@);
        }
        self.length = self.length + n;
        true
    }

    /// Whether `pool` can supply a packet that holds `n` bytes behind a
    /// headroom of `reserved(headroom, particle size)` bytes: a packet and
    /// a particle are free, and then the bytes fit.
    pub open spec fn storable<P: PacketPool>(pool: &P, headroom: nat, n: nat) -> bool {
        let psz = pool@.particle_sz;
        let room = (psz - reserved(headroom, psz)) as nat;
        &&& pool@.free_packets > 0
        &&& pool@.free_particles > 0
        &&& n <= usize::MAX
        &&& n <= room || (psz > 0 && chained((n - room) as nat, psz) <= pool@.free_particles - 1)
    }

    /// The particles of `psz` bytes that a packet of `n` bytes takes when
    /// its first particle keeps `reserved(headroom, psz)` bytes free.
    pub open spec fn particles_for(psz: nat, headroom: nat, n: nat) -> nat {
        let room = (psz - reserved(headroom, psz)) as nat;
        if n <= room {
            1
        } else {
            1 + chained((n - room) as nat, psz)
        }
    }

    /// A packet from `pool` that holds `bytes`: read back, it gives
    /// `bytes` again, byte for byte. Where the pool cannot supply the
    /// packet and all the particles it takes, there is no packet and the
    /// pool's counts stay as they were.
    pub fn from_bytes<P: PacketPool>(pool: &mut P, headroom: usize, bytes: &[u8]) -> (r: Option<
        Packet,
    >)
        requires
            old(pool).wf(),
        ensures
            final(pool).wf(),
            r.is_some() == Self::storable(old(pool), headroom as nat, bytes@.len()),
            match r {
                Some(p) => {
                    &&& p.wf()
                    &&& p@ == bytes@
                    &&& p.spec_headroom() == reserved(headroom as nat, old(pool)@.particle_sz)
                    &&& p.spec_particle_sz() == old(pool)@.particle_sz
                    &&& p.chunks().len() == Self::particles_for(
                        old(pool)@.particle_sz,
                        headroom as nat,
                        bytes@.len(),
                    )
                    &&& final(pool)@ == old(pool)@.took(1, p.chunks().len())
                },
                None => final(pool)@ == old(pool)@,
            },
    {
        proof {
            pool.lemma_bound();
        }
        let mut pkt = match pool.pkt(headroom) {
            Some(pkt) => pkt,
            None => {
                return None;
            },
        };
        proof {
            pkt.chunks().lemma_flatten_one_element();
            pkt.lemma_layout();
            assert(pkt.chunks().last() == pkt.chunks()[0]);
            assert(pkt.headrooms().last() == pkt.headrooms()[0]);
        }
        if pkt.append(pool, bytes) {
            assert(pkt@ =~= bytes@);
            Some(pkt)
        } else {
            pool.free_pkt(pkt);
            assert(pool@ =~= old(pool)@);
            None
        }
    }
}

} // verus!
