//! Provided buffer ring: the pool of equally sized receive buffers of a worker.
//!
//! A receive completion names the buffer that was filled. The worker reads it
//! and returns it to the ring.

use std::collections::TryReserveError;

use vstd::prelude::*;

verus! {

/// The unit to which the size of the buffer memory is rounded up before it is
/// held against the address space, in bytes.
pub const BUF_ALIGN: usize = 4096;

/// Why a buffer ring could not be made.
#[derive(Debug, Clone, Copy, PartialEq, Eq, Structural)]
pub enum BufRingError {
    /// The buffers together exceed the address space.
    TooLarge,
    /// The memory for the buffers could not be had.
    OutOfMemory,
}

/// A pool of receive buffers.
pub struct ProvidedBufRing {
    /// The buffers, one behind the other.
    bufs: Vec<u8>,
    /// Number of buffers in the ring.
    buf_count: u16,
    /// Size of each buffer in bytes.
    buf_size: u32,
    /// Buffer group of this ring.
    bgid: u16,
    /// Position at which the next buffer is given back.
    tail: u16,
}

/// What a buffer ring holds.
pub struct RingView {
    /// The contents of each buffer.
    pub buffers: Seq<Seq<u8>>,
    pub buf_size: u32,
    pub bgid: u16,
    pub tail: u16,
}

/// Whether the memory for `buf_count` buffers of `buf_size` bytes, rounded up
/// to whole units, fits in the address space.
pub open spec fn ring_fits(buf_count: u16, buf_size: u32) -> bool {
    buf_count * buf_size <= isize::MAX - (BUF_ALIGN - 1)
}

/// A ring of `buf_count` buffers of `buf_size` zero bytes to which none was
/// returned yet.
pub open spec fn zeroed_ring(bgid: u16, buf_count: u16, buf_size: u32) -> RingView {
    RingView {
        buffers: Seq::new(
            buf_count as nat,
            |id: int| Seq::new(buf_size as nat, |i: int| 0u8),
        ),
        buf_size,
        bgid,
        tail: 0,
    }
}

/// The buffers together have a size of 48 bits.
proof fn lemma_total_size(buf_count: u16, buf_size: u32)
    ensures
        0 <= buf_count * buf_size <= 0xffff * 0xffff_ffff,
{
    assert(0 <= buf_count * buf_size <= 0xffff * 0xffff_ffff) by (nonlinear_arith)
        requires
            0 <= buf_count <= 0xffff,
            0 <= buf_size <= 0xffff_ffff,
    ;
}

/// The size of the memory for `buf_count` buffers of `buf_size` bytes; `None`
/// where it does not fit in the address space.
pub fn ring_bytes(buf_count: u16, buf_size: u32) -> (bytes: Option<usize>)
    ensures
        match bytes {
            Some(n) => ring_fits(buf_count, buf_size) && n == buf_count * buf_size,
            None => !ring_fits(buf_count, buf_size),
        },
{
    proof {
        lemma_total_size(buf_count, buf_size);
    }
    let total: u64 = buf_count as u64 * buf_size as u64;
    if total > (isize::MAX as usize - (BUF_ALIGN - 1)) as u64 {
        return None;
    }
    Some(total as usize)
}

/// The buffers that lie one behind the other in `bufs`.
spec fn buffers_of(bufs: Seq<u8>, count: int, size: int) -> Seq<Seq<u8>> {
    Seq::new(count as nat, |id: int| bufs.subrange(id * size, (id + 1) * size))
}

impl View for ProvidedBufRing {
    type V = RingView;

    closed spec fn view(&self) -> RingView {
        RingView {
            buffers: buffers_of(self.bufs@, self.buf_count as int, self.buf_size as int),
            buf_size: self.buf_size,
            bgid: self.bgid,
            tail: self.tail,
        }
    }
}

impl ProvidedBufRing {
    /// Default number of buffers in a ring.
    pub const DEFAULT_BUF_COUNT: u16 = 2048;

    /// Default buffer size, enough for most requests.
    pub const DEFAULT_BUF_SIZE: u32 = 4096;

    /// The buffer memory is exactly as long as the buffers together.
    pub closed spec fn wf(&self) -> bool {
        self.bufs@.len() == self.buf_count * self.buf_size
    }

    /// Makes a ring of `buf_count` zeroed buffers of `buf_size` bytes each.
    /// Whether there is memory for them is up to the machine: an empty vector
    /// is asked to reserve exactly the size of the buffers together, and there
    /// is a ring if and only if it could. No bytes need no memory.
    pub fn new(bgid: u16, buf_count: u16, buf_size: u32) -> (ring: Result<Self, BufRingError>)
        ensures
            match ring {
                Ok(r) => {
                    &&& ring_fits(buf_count, buf_size)
                    &&& r.wf()
                    &&& r@ == zeroed_ring(bgid, buf_count, buf_size)
                },
                Err(BufRingError::TooLarge) => !ring_fits(buf_count, buf_size),
                Err(BufRingError::OutOfMemory) => {
                    &&& ring_fits(buf_count, buf_size)
                    &&& buf_count * buf_size > 0
                },
            },
            ring_fits(buf_count, buf_size) && buf_count * buf_size > 0 ==> exists|
                asked: &mut Vec<u8>,
                answer: Result<(), TryReserveError>,
            |
                {
                    &&& #[trigger] call_ensures(
                        Vec::<u8>::try_reserve,
                        (asked, (buf_count * buf_size) as usize),
                        answer,
                    )
                    &&& asked@.len() == 0
                    &&& ring is Ok <==> answer is Ok
                },
    {
        match ring_bytes(buf_count, buf_size) {
            Some(total) => {
                let mut bufs: Vec<u8> = Vec::new();
                if total == 0 {
                    return Self::with_memory(bgid, buf_count, buf_size, bufs, true);
                }
                let answer = bufs.try_reserve(total);
                assert(total == (buf_count * buf_size) as usize);
                let reserved: bool = answer.is_ok();
                Self::with_memory(bgid, buf_count, buf_size, bufs, reserved)
            },
            None => Err(BufRingError::TooLarge),
        }
    }

    /// Makes a ring in memory that was asked for: where it was `reserved`, the
    /// buffers are zeroed in it, and where it was not, there is no ring.
    pub fn with_memory(
        bgid: u16,
        buf_count: u16,
        buf_size: u32,
        bufs: Vec<u8>,
        reserved: bool,
    ) -> (ring: Result<Self, BufRingError>)
        requires
            ring_fits(buf_count, buf_size),
            bufs@.len() == 0,
        ensures
            match ring {
                Ok(r) => reserved && r.wf() && r@ == zeroed_ring(bgid, buf_count, buf_size),
                Err(e) => !reserved && e == BufRingError::OutOfMemory,
            },
    {
        if !reserved {
            return Err(BufRingError::OutOfMemory);
        }
        proof {
            lemma_total_size(buf_count, buf_size);
        }
        let total_buf_mem: usize = buf_count as usize * buf_size as usize;
        let mut bufs = bufs;
        bufs.resize(total_buf_mem, 0);
        let ring = ProvidedBufRing { bufs, buf_count, buf_size, bgid, tail: 0 };
        proof {
            let zeroed = zeroed_ring(bgid, buf_count, buf_size).buffers;
            assert forall|id: int| 0 <= id < buf_count implies #[trigger] ring@.buffers[id]
                == zeroed[id] by {
                lemma_buffer_bounds(id, buf_count as int, buf_size as int);
                assert(ring@.buffers[id] =~= zeroed[id]);
            }
            assert(ring@.buffers =~= zeroed);
        }
        Ok(ring)
    }

    /// The buffer group of this ring.
    pub fn bgid(&self) -> (bgid: u16)
        ensures
            bgid == self@.bgid,
    {
        self.bgid
    }

    /// The first `len` bytes of the buffer `buf_id`.
    pub fn get_buf(&self, buf_id: u16, len: usize) -> (data: &[u8])
        requires
            self.wf(),
            buf_id < self@.buffers.len(),
            len <= self@.buf_size,
        ensures
            data@ == self@.buffers[buf_id as int].take(len as int),
    {
        proof {
            lemma_buffer_bounds(buf_id as int, self.buf_count as int, self.buf_size as int);
        }
        assert(self.bufs.len() == self.bufs@.len());
        let start: usize = buf_id as usize * self.buf_size as usize;
        let data: &[u8] = &self.bufs[start..start + len];
        assert(data@ =~= self@.buffers[buf_id as int].take(len as int));
        data
    }

    /// The whole buffer `buf_id`, for the receiving side to fill.
    pub fn get_buf_mut(&mut self, buf_id: u16) -> (data: &mut [u8])
        requires
            old(self).wf(),
            buf_id < old(self)@.buffers.len(),
        ensures
            data@ == old(self)@.buffers[buf_id as int],
            final(data)@.len() == data@.len() ==> final(self).wf() && final(self)@ == (RingView {
                buffers: old(self)@.buffers.update(buf_id as int, final(data)@),
                ..old(self)@
            }),
    {
        proof {
            lemma_buffer_bounds(buf_id as int, self.buf_count as int, self.buf_size as int);
        }
        assert(self.bufs.len() == self.bufs@.len());
        let size: usize = self.buf_size as usize;
        let start: usize = buf_id as usize * size;
        let (front, rest) = self.bufs.as_mut_slice().split_at_mut(start);
        let (data, back) = rest.split_at_mut(size);
        let ghost before = front@;
        let ghost behind = back@;
        let ghost count = old(self).buf_count as int;
        assert(old(self).bufs@ =~= before + (data@ + behind));
        assert forall|filled: Seq<u8>| filled.len() == size implies buffers_of(
            #[trigger] (before + (filled + behind)),
            count,
            size as int,
        ) == buffers_of(old(self).bufs@, count, size as int).update(buf_id as int, filled) by {
            lemma_fill(before, data@, filled, behind, buf_id as int, count, size as int);
        }
        data
    }

    /// Returns a buffer to the ring, which advances the tail; it wraps at the
    /// end of its range.
    pub fn return_buf(&mut self, buf_id: u16)
        ensures
            old(self).wf() ==> final(self).wf(),
            final(self)@ == (RingView {
                tail: ((old(self)@.tail + 1) % 0x1_0000) as u16,
                ..old(self)@
            }),
    {
        let _ = buf_id;
        self.tail = self.tail.wrapping_add(1);
    }

    /// The number of buffers.
    pub fn buf_count(&self) -> (count: u16)
        ensures
            count == self@.buffers.len(),
    {
        self.buf_count
    }

    /// The size of each buffer.
    pub fn buf_size(&self) -> (size: u32)
        ensures
            size == self@.buf_size,
    {
        self.buf_size
    }
}

/// Every buffer of a ring has the ring's buffer size.
pub proof fn law_buffers_have_equal_size(ring: ProvidedBufRing, id: int)
    requires
        ring.wf(),
        0 <= id < ring@.buffers.len(),
    ensures
        ring@.buffers[id].len() == ring@.buf_size,
{
    lemma_buffer_bounds(id, ring.buf_count as int, ring.buf_size as int);
}

/// Reading a buffer gives back what was put into it, and filling one buffer
/// changes no other and no property of the ring: `after` is what `get_buf_mut`
/// leaves of the ring `before` when `filled` is put into the buffer `id`.
pub proof fn law_filled_buffer_reads_back(
    before: ProvidedBufRing,
    after: ProvidedBufRing,
    id: int,
    filled: Seq<u8>,
)
    requires
        before.wf(),
        0 <= id < before@.buffers.len(),
        filled.len() == before@.buffers[id].len(),
        after@ == (RingView { buffers: before@.buffers.update(id, filled), ..before@ }),
    ensures
        filled.len() == after@.buf_size,
        after@.buffers.len() == before@.buffers.len(),
        forall|len: int| #[trigger] after@.buffers[id].take(len) == filled.take(len),
        forall|other: int, len: int|
            0 <= other < before@.buffers.len() && other != id
                ==> #[trigger] after@.buffers[other].take(len) == before@.buffers[other].take(len),
{
    law_buffers_have_equal_size(before, id);
}

/// The buffer `id` lies within the memory of all buffers.
proof fn lemma_buffer_bounds(id: int, count: int, size: int)
    requires
        0 <= id < count,
        0 <= size,
    ensures
        0 <= id * size,
        (id + 1) * size == id * size + size,
        id * size + size <= count * size,
{
    assert(0 <= id * size) by (nonlinear_arith)
        requires
            0 <= id,
            0 <= size,
    ;
    assert((id + 1) * size == id * size + size) by (nonlinear_arith);
    assert((id + 1) * size <= count * size) by (nonlinear_arith)
        requires
            id + 1 <= count,
            0 <= size,
    ;
}

/// Filling one buffer leaves the others as they are.
proof fn lemma_fill(
    front: Seq<u8>,
    given: Seq<u8>,
    filled: Seq<u8>,
    back: Seq<u8>,
    at: int,
    count: int,
    size: int,
)
    requires
        0 <= at < count,
        given.len() == size,
        filled.len() == size,
        front.len() == at * size,
        front.len() + size + back.len() == count * size,
    ensures
        buffers_of(front + (filled + back), count, size) == buffers_of(
            front + (given + back),
            count,
            size,
        ).update(at, filled),
{
    let before = buffers_of(front + (given + back), count, size);
    let after = buffers_of(front + (filled + back), count, size);
    assert forall|id: int| 0 <= id < count implies #[trigger] after[id] == before.update(
        at,
        filled,
    )[id] by {
        lemma_buffer_bounds(id, count, size);
        lemma_buffers_are_disjoint(id, at, size);
        assert(after[id] =~= before.update(at, filled)[id]);
    }
    assert(after =~= before.update(at, filled));
}

/// Two different buffers share no byte.
proof fn lemma_buffers_are_disjoint(a: int, b: int, size: int)
    requires
        0 <= size,
    ensures
        a < b ==> a * size + size <= b * size,
        b < a ==> b * size + size <= a * size,
{
    if a < b {
        assert((a + 1) * size <= b * size && (a + 1) * size == a * size + size)
            by (nonlinear_arith)
            requires
                a + 1 <= b,
                0 <= size,
        ;
    } else if b < a {
        assert((b + 1) * size <= a * size && (b + 1) * size == b * size + size)
            by (nonlinear_arith)
            requires
                b + 1 <= a,
                0 <= size,
        ;
    }
}

/// A new ring has as many buffers as were asked for, each of the size that was
/// asked for and all zero, and nothing was returned to it.
pub proof fn law_new_ring_is_zeroed(bgid: u16, buf_count: u16, buf_size: u32, id: int, i: int)
    requires
        0 <= id < buf_count,
        0 <= i < buf_size,
    ensures
        ({
            let ring = zeroed_ring(bgid, buf_count, buf_size);
            &&& ring.buffers.len() == buf_count
            &&& ring.buffers[id].len() == buf_size
            &&& ring.buffers[id][i] == 0
            &&& ring.buf_size == buf_size
            &&& ring.bgid == bgid
            &&& ring.tail == 0
        }),
{
}

/// A ring fits where its buffers together, rounded up to 4096 bytes, take no
/// more than half of the address space. The default is 2048 buffers of 4096
/// bytes.
pub proof fn law_ring_fits_in_half_of_the_address_space(buf_count: u16, buf_size: u32)
    ensures
        ring_fits(buf_count, buf_size) <==> buf_count * buf_size + 4095 <= isize::MAX,
        ProvidedBufRing::DEFAULT_BUF_COUNT == 2048,
        ProvidedBufRing::DEFAULT_BUF_SIZE == 4096,
{
}

} // verus!
