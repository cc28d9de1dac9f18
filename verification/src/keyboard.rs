//! The interrupt-to-future bridge: a bounded FIFO of raw scancode bytes.
//!
//! The keyboard interrupt handler pushes one byte per interrupt and never
//! blocks: on a full queue the byte is dropped and counted.  The consuming
//! task polls the queue; when it is empty the poll registers the task's
//! waker, and the next successful push hands that waker back to the caller
//! so it can mark the task ready.  At most one registration is live at a
//! time: this is a single-consumer queue.

use vstd::prelude::*;
use crate::task::Waker;

verus! {

/// What one poll of the scancode stream yields: the next byte in hardware
/// order, or a suspension after registering the caller's waker.
#[derive(Clone, Copy, Debug, PartialEq, Eq, Structural)]
pub enum PollNext {
    Ready(u8),
    Pending,
}

/// A fixed-capacity FIFO of scancode bytes with a single waker slot and a
/// dropped-byte counter.
pub struct ScancodeQueue {
    buf: Vec<u8>,
    capacity: usize,
    dropped: u64,
    waker: Option<u64>,
}

impl ScancodeQueue {
    /// The queued bytes, oldest first.
    pub closed spec fn bytes(self) -> Seq<u8> {
        self.buf@
    }

    /// The fixed capacity chosen at initialization.
    pub closed spec fn cap(self) -> int {
        self.capacity as int
    }

    /// How many bytes overflow has discarded so far.
    pub closed spec fn dropped_count(self) -> u64 {
        self.dropped
    }

    /// The task registered to be woken on the next push, if any.
    pub closed spec fn waker_spec(self) -> Option<u64> {
        self.waker
    }

    /// Internal invariant: the queue never outgrows its capacity.
    pub closed spec fn wf(self) -> bool {
        &&& self.buf@.len() <= self.capacity
        &&& self.capacity >= 1
    }

    /// An empty queue of the given capacity, with no waker registered.
    pub fn new(capacity: usize) -> (q: Self)
        requires
            capacity >= 1,
        ensures
            q.wf(),
            q.bytes() == Seq::<u8>::empty(),
            q.cap() == capacity,
            q.dropped_count() == 0,
            q.waker_spec() is None,
    {
        let q = ScancodeQueue { buf: Vec::new(), capacity, dropped: 0, waker: None };
        proof {
            assert(q.bytes() =~= Seq::<u8>::empty());
        }
        q
    }

    /// True when no byte is queued.
    pub fn is_empty(&self) -> (r: bool)
        ensures
            r == (self.bytes().len() == 0),
    {
        self.buf.len() == 0
    }

    /// How many bytes overflow has discarded.
    pub fn dropped_bytes(&self) -> (r: u64)
        ensures
            r == self.dropped_count(),
    {
        self.dropped
    }

    /// How many bytes are queued.
    pub fn len(&self) -> (r: usize)
        ensures
            r == self.bytes().len(),
    {
        self.buf.len()
    }

    /// The producer side, run by the interrupt handler: appends the byte
    /// when there is room and hands back the registered waker (now
    /// consumed) for the caller to invoke; on a full queue the byte is
    /// dropped and counted, nothing blocks, and nobody is woken.
    pub fn push(&mut self, scancode: u8) -> (woken: Option<Waker>)
        requires
            old(self).wf(),
            old(self).dropped_count() < u64::MAX,
        ensures
            final(self).wf(),
            final(self).cap() == old(self).cap(),
            old(self).bytes().len() < old(self).cap() ==> {
                &&& final(self).bytes() == old(self).bytes().push(scancode)
                &&& final(self).dropped_count() == old(self).dropped_count()
                &&& final(self).waker_spec() is None
                &&& woken == match old(self).waker_spec() {
                    Some(id) => Some(Waker { task_id: id }),
                    None => None::<Waker>,
                }
            },
            old(self).bytes().len() >= old(self).cap() ==> {
                &&& final(self).bytes() == old(self).bytes()
                &&& final(self).dropped_count() == old(self).dropped_count() + 1
                &&& final(self).waker_spec() == old(self).waker_spec()
                &&& woken is None
            },
    {
        if self.buf.len() < self.capacity {
            self.buf.push(scancode);
            match self.waker {
                Some(id) => {
                    self.waker = None;
                    Some(Waker { task_id: id })
                },
                None => None,
            }
        } else {
            self.dropped = self.dropped + 1;
            None
        }
    }

    /// The consumer side: pops the oldest byte, or registers the
    /// caller's waker and suspends when the queue is empty.  Bytes come
    /// out in exactly the order the hardware produced them.
    pub fn poll_next(&mut self, waker: Waker) -> (r: PollNext)
        requires
            old(self).wf(),
        ensures
            final(self).wf(),
            final(self).cap() == old(self).cap(),
            final(self).dropped_count() == old(self).dropped_count(),
            old(self).bytes().len() > 0 ==> {
                &&& r == PollNext::Ready(old(self).bytes()[0])
                &&& final(self).bytes() == old(self).bytes().drop_first()
                &&& final(self).waker_spec() is None
            },
            old(self).bytes().len() == 0 ==> {
                &&& r == PollNext::Pending
                &&& final(self).bytes() == old(self).bytes()
                &&& final(self).waker_spec() == Some(waker.task_id)
            },
    {
        if self.buf.len() > 0 {
            let b = self.buf.remove(0);
            self.waker = None;
            PollNext::Ready(b)
        } else {
            self.waker = Some(waker.task_id);
            PollNext::Pending
        }
    }
}

} // verus!
