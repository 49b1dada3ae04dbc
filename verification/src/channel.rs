use vstd::prelude::*;

use crate::frame::GifFrame;

verus! {

/// What one send attempt did. A full or closed channel hands the
/// frame back untouched, so a frame is never dropped: the producer
/// holds on to it and retries (blocks) or aborts.
pub enum SendOutcome {
    /// The frame entered the queue.
    Sent,
    /// The queue was at capacity; the producer must wait and retry.
    Full(GifFrame),
    /// The consumer closed its end; the producer must abort.
    Disconnected(GifFrame),
}

/// The bounded hand-off between the parsing task and the consumer.
///
/// Frames queue in decode order and leave in the same order. The
/// capacity bound gives backpressure: once the queue is full nothing
/// more enters until the consumer receives, so a slow consumer cannot
/// cause unbounded buffering, and a send to a full queue returns the
/// frame to the producer rather than dropping it.
pub struct FrameChannel {
    queue: Vec<GifFrame>,
    capacity: usize,
    closed: bool,
}

impl FrameChannel {
    /// The queued frames, oldest first.
    pub closed spec fn frames(&self) -> Seq<GifFrame> {
        self.queue@
    }

    /// The fixed bound on how many frames may queue at once.
    pub closed spec fn capacity_spec(&self) -> int {
        self.capacity as int
    }

    /// Whether the consumer has dropped its end.
    pub closed spec fn is_closed(&self) -> bool {
        self.closed
    }

    /// The queue never outgrows its capacity.
    pub open spec fn wf(&self) -> bool {
        self.frames().len() <= self.capacity_spec() && self.capacity_spec() >= 1
    }

    /// An empty open channel bounded at `capacity` frames.
    pub fn new(capacity: usize) -> (c: FrameChannel)
        requires
            capacity >= 1,
        ensures
            c.wf(),
            c.frames() == Seq::<GifFrame>::empty(),
            c.capacity_spec() == capacity,
            !c.is_closed(),
    {
        FrameChannel { queue: Vec::new(), capacity, closed: false }
    }

    /// How many frames are queued right now.
    pub fn len(&self) -> (n: usize)
        ensures
            n == self.frames().len(),
    {
        self.queue.len()
    }

    /// Offers one frame to the consumer. Into an open queue below
    /// capacity it enters at the back; a full queue returns it as
    /// `Full` and a closed one as `Disconnected`, both leaving the
    /// queue exactly as it was.
    pub fn send(&mut self, frame: GifFrame) -> (r: SendOutcome)
        requires
            old(self).wf(),
        ensures
            final(self).wf(),
            final(self).capacity_spec() == old(self).capacity_spec(),
            final(self).is_closed() == old(self).is_closed(),
            old(self).is_closed() ==> final(self).frames() == old(self).frames() && r
                == SendOutcome::Disconnected(frame),
            !old(self).is_closed() && old(self).frames().len() == old(self).capacity_spec()
                ==> final(self).frames() == old(self).frames() && r == SendOutcome::Full(frame),
            !old(self).is_closed() && old(self).frames().len() < old(self).capacity_spec()
                ==> final(self).frames() == old(self).frames().push(frame) && r
                == SendOutcome::Sent,
    {
        if self.closed {
            SendOutcome::Disconnected(frame)
        } else if self.queue.len() >= self.capacity {
            SendOutcome::Full(frame)
        } else {
            self.queue.push(frame);
            SendOutcome::Sent
        }
    }

    /// Hands out the oldest queued frame, in strict decode order;
    /// `None` when the queue is empty.
    pub fn recv(&mut self) -> (r: Option<GifFrame>)
        requires
            old(self).wf(),
        ensures
            final(self).wf(),
            final(self).capacity_spec() == old(self).capacity_spec(),
            final(self).is_closed() == old(self).is_closed(),
            old(self).frames().len() == 0 ==> r is None && final(self).frames() == old(self).frames(),
            old(self).frames().len() > 0 ==> final(self).frames() == old(self).frames().subrange(
                1,
                old(self).frames().len() as int,
            ) && (r matches Some(f) && f == old(self).frames()[0]),
    {
        if self.queue.len() == 0 {
            None
        } else {
            let f = self.queue.remove(0);
            proof {
                assert(self.queue@ =~= old(self).frames().subrange(
                    1,
                    old(self).frames().len() as int,
                ));
            }
            Some(f)
        }
    }

    /// Drops the consumer's end: every later send observes
    /// `Disconnected`. Frames already queued stay receivable.
    pub fn close(&mut self)
        requires
            old(self).wf(),
        ensures
            final(self).wf(),
            final(self).capacity_spec() == old(self).capacity_spec(),
            final(self).frames() == old(self).frames(),
            final(self).is_closed(),
    {
        self.closed = true;
    }
}

} // verus!
