//! Particles: the fixed-size buffers that packets are made of.

use vstd::prelude::*;
use vstd::slice::slice_subrange;

verus! {

/// The most headroom a particle reserves, in bytes.
pub const MAX_HEADROOM: usize = 100;

/// The headroom that a particle of `size` bytes reserves when `headroom`
/// bytes are asked for: never more than `MAX_HEADROOM`, nor than the particle.
pub open spec fn reserved(headroom: nat, size: nat) -> nat {
    let wanted = if headroom <= MAX_HEADROOM {
        headroom
    } else {
        MAX_HEADROOM as nat
    };
    if wanted <= size {
        wanted
    } else {
        size
    }
}

/// The smaller of two lengths.
pub open spec fn least(a: nat, b: nat) -> nat {
    if a <= b {
        a
    } else {
        b
    }
}

/// A contiguous buffer of fixed size. Its data lies between a headroom,
/// kept free so that a header can be put in front without copying, and a
/// tailroom, into which data is appended.
pub struct Particle {
    buf: Vec<u8>,
    head: usize,
    tail: usize,
}

impl View for Particle {
    type V = Seq<u8>;

    /// The data that the particle holds.
    closed spec fn view(&self) -> Seq<u8> {
        self.buf@.subrange(self.head as int, self.tail as int)
    }
}

impl Particle {
    /// The data lies inside the buffer.
    pub closed spec fn wf(&self) -> bool {
        self.head <= self.tail <= self.buf.len()
    }

    /// The size of the whole buffer.
    pub closed spec fn spec_size(&self) -> nat {
        self.buf.len() as nat
    }

    /// The free bytes in front of the data.
    pub closed spec fn spec_headroom(&self) -> nat {
        self.head as nat
    }

    /// The free bytes behind the data.
    pub open spec fn spec_tailroom(&self) -> nat {
        (self.spec_size() - self.spec_headroom() - self@.len()) as nat
    }

    /// Headroom and data never exceed the buffer.
    pub proof fn lemma_layout(&self)
        requires
            self.wf(),
        ensures
            self.spec_headroom() + self@.len() <= self.spec_size(),
            self.spec_size() <= usize::MAX,
    {
    }

    /// A particle of `size` bytes that holds no data and keeps
    /// `reserved(headroom, size)` bytes free in front.
    pub fn new(size: usize, headroom: usize) -> (p: Particle)
        ensures
            p.wf(),
            p@ == Seq::<u8>::empty(),
            p.spec_size() == size,
            p.spec_headroom() == reserved(headroom as nat, size as nat),
    {
        let buf = vec![0u8; size];
        let mut p = Particle { buf, head: 0, tail: 0 };
        p.reset(headroom);
        p
    }

    /// Forgets the data and reserves the headroom anew.
    pub fn reset(&mut self, headroom: usize)
        ensures
            final(self).wf(),
            final(self)@ == Seq::<u8>::empty(),
            final(self).spec_size() == old(self).spec_size(),
            final(self).spec_headroom() == reserved(
                headroom as nat,
                old(self).spec_size(),
            ),
    {
        let wanted = if headroom <= MAX_HEADROOM {
            headroom
        } else {
            MAX_HEADROOM
        };
        let start = if wanted <= self.buf.len() {
            wanted
        } else {
            self.buf.len()
        };
        self.head = start;
        self.tail = start;
    }

    /// The number of data bytes.
    pub fn len(&self) -> (n: usize)
        requires
            self.wf(),
        ensures
            n == self@.len(),
    {
        self.tail - self.head
    }

    /// The size of the whole buffer.
    pub fn size(&self) -> (n: usize)
        ensures
            n == self.spec_size(),
    {
        self.buf.len()
    }

    /// The free bytes in front of the data.
    pub fn headroom(&self) -> (n: usize)
        ensures
            n == self.spec_headroom(),
    {
        self.head
    }

    /// The free bytes behind the data.
    pub fn tailroom(&self) -> (n: usize)
        requires
            self.wf(),
        ensures
            n == self.spec_tailroom(),
    {
        self.buf.len() - self.tail
    }

    /// The data, in place.
    pub fn data(&self) -> (bytes: &[u8])
        requires
            self.wf(),
        ensures
            bytes@ == self@,
    {
        slice_subrange(self.buf.as_slice(), self.head, self.tail)
    }

    /// Copies bytes of `bytes`, from position `from` on, behind the data,
    /// as many as the tailroom takes, and returns how many went in.
    pub fn fill(&mut self, bytes: &[u8], from: usize) -> (n: usize)
        requires
            old(self).wf(),
            from <= bytes@.len(),
        ensures
            final(self).wf(),
            n == least(old(self).spec_tailroom(), (bytes@.len() - from) as nat),
            final(self)@ == old(self)@ + bytes@.subrange(from as int, from + n),
            final(self).spec_size() == old(self).spec_size(),
            final(self).spec_headroom() == old(self).spec_headroom(),
    {
        let room = self.buf.len() - self.tail;
        let wanted = bytes.len() - from;
        let n = if room <= wanted {
            room
        } else {
            wanted
        };
        let mut i: usize = 0;
        while i < n
            invariant
                i <= n,
                from + n <= bytes@.len() <= usize::MAX,
                self.head == old(self).head,
                self.tail == old(self).tail + i,
                self.buf.len() == old(self).buf.len(),
                old(self).tail + n <= self.buf.len(),
                old(self).wf(),
                self@ == old(self)@ + bytes@.subrange(from as int, from + i),
            decreases n - i,
        {
            let ghost before = self@;
            let b = bytes[from + i];
            let at = self.tail;
            self.buf[at] = b;
            self.tail = at + 1;
            i = i + 1;
            assert(self@ == before.push(b));
            assert(bytes@.subrange(from as int, from + i) == bytes@.subrange(
                from as int,
                from + i - 1,
            ).push(b));
        }
        n
    }

    /// Copies as much of `bytes` behind the data as the tailroom takes, and
    /// returns how many bytes went in.
    pub fn append(&mut self, bytes: &[u8]) -> (n: usize)
        requires
            old(self).wf(),
        ensures
            final(self).wf(),
            n == least(old(self).spec_tailroom(), bytes@.len()),
            final(self)@ == old(self)@ + bytes@.take(n as int),
            final(self).spec_size() == old(self).spec_size(),
            final(self).spec_headroom() == old(self).spec_headroom(),
    {
        self.fill(bytes, 0)
    }

    /// Puts `bytes` in front of the data, into the headroom. Succeeds when
    /// the headroom takes all of them; else nothing changes.
    pub fn prepend(&mut self, bytes: &[u8]) -> (ok: bool)
        requires
            old(self).wf(),
        ensures
            final(self).wf(),
            ok == (bytes@.len() <= old(self).spec_headroom()),
            ok ==> final(self)@ == bytes@ + old(self)@,
            ok ==> final(self).spec_headroom() == old(self).spec_headroom() - bytes@.len(),
            !ok ==> *final(self) == *old(self),
            final(self).spec_size() == old(self).spec_size(),
    {
        let n = bytes.len();
        if n > self.head {
            return false;
        }
        let start = self.head - n;
        let mut i: usize = 0;
        while i < n
            invariant
                i <= n,
                n == bytes@.len(),
                start + n == old(self).head,
                self.head == old(self).head,
                self.tail == old(self).tail,
                self.buf.len() == old(self).buf.len(),
                old(self).wf(),
                self@ == old(self)@,
                self.buf@.subrange(start as int, start + i) == bytes@.take(i as int),
            decreases n - i,
        {
            let b = bytes[i];
            self.buf[start + i] = b;
            i = i + 1;
            assert(self.buf@.subrange(start as int, start + i) == bytes@.take(i - 1).push(b));
            assert(bytes@.take(i as int) == bytes@.take(i - 1).push(b));
            assert(self@ == old(self)@);
        }
        self.head = start;
        assert(bytes@.take(n as int) == bytes@);
        assert(self@ == bytes@ + old(self)@);
        true
    }
}

} // verus!
