//! A fixed-capacity FIFO queue of frames connecting one producer to one
//! consumer, providing backpressure: a send against a full queue is
//! refused and the frame handed back, so the producer must wait for the
//! consumer to free a slot. Delivery order is strict FIFO.

use vstd::prelude::*;
use crate::frame::Frame;

verus! {

pub struct BoundedFrameChannel {
    frames: Vec<Frame>,
    cap: usize,
}

impl BoundedFrameChannel {
    /// The queued frames, oldest first.
    pub closed spec fn contents(self) -> Seq<Frame> {
        self.frames@
    }

    /// The fixed capacity the channel was created with.
    pub closed spec fn capacity(self) -> int {
        self.cap as int
    }

    pub closed spec fn wf(self) -> bool {
        &&& self.frames@.len() <= self.cap
        &&& self.cap >= 1
    }

    /// An empty channel of capacity `cap`.
    pub fn new(cap: usize) -> (r: BoundedFrameChannel)
        requires
            cap >= 1,
        ensures
            r.wf(),
            r.capacity() == cap,
            r.contents() == Seq::<Frame>::empty(),
    {
        BoundedFrameChannel { frames: Vec::new(), cap }
    }

    pub fn len(&self) -> (r: usize)
        ensures
            r == self.contents().len(),
    {
        self.frames.len()
    }

    /// Append a frame when a slot is free; when the queue is at
    /// capacity the frame is handed back unchanged and the channel is
    /// untouched — the backpressure signal, not an error.
    pub fn try_send(&mut self, f: Frame) -> (r: Option<Frame>)
        requires
            old(self).wf(),
        ensures
            final(self).wf(),
            final(self).capacity() == old(self).capacity(),
            old(self).contents().len() < old(self).capacity() ==> r is None
                && final(self).contents() == old(self).contents().push(f),
            old(self).contents().len() >= old(self).capacity() ==> r == Some(f)
                && final(self).contents() == old(self).contents(),
    {
        if self.frames.len() < self.cap {
            self.frames.push(f);
            None
        } else {
            Some(f)
        }
    }

    /// Remove and return the oldest pending frame; `None` when the
    /// queue is empty (the consumer must wait).
    pub fn try_recv(&mut self) -> (r: Option<Frame>)
        requires
            old(self).wf(),
        ensures
            final(self).wf(),
            final(self).capacity() == old(self).capacity(),
            old(self).contents().len() > 0 ==> r == Some(old(self).contents()[0])
                && final(self).contents() == old(self).contents().drop_first(),
            old(self).contents().len() == 0 ==> r is None
                && final(self).contents() == old(self).contents(),
    {
        if self.frames.len() > 0 {
            let f = self.frames.remove(0);
            proof {
                assert(old(self).frames@.remove(0) =~= old(self).frames@.drop_first());
            }
            Some(f)
        } else {
            None
        }
    }
}

/// Ghost state of a producer/consumer run: what is queued, how many of
/// the producer's frames have entered the channel, and what the
/// consumer has observed, in order.
pub struct ChannelModel {
    pub queue: Seq<Frame>,
    pub sent: int,
    pub received: Seq<Frame>,
}

pub open spec fn channel_init() -> ChannelModel {
    ChannelModel { queue: Seq::empty(), sent: 0, received: Seq::empty() }
}

/// One scheduling step: a producer step sends its next frame when the
/// queue has room (otherwise it blocks and nothing changes); a consumer
/// step receives the oldest frame when one is pending.
pub open spec fn channel_step(
    st: ChannelModel,
    is_send: bool,
    frames: Seq<Frame>,
    cap: int,
) -> ChannelModel {
    if is_send {
        if st.sent < frames.len() && st.queue.len() < cap {
            ChannelModel {
                queue: st.queue.push(frames[st.sent]),
                sent: st.sent + 1,
                received: st.received,
            }
        } else {
            st
        }
    } else {
        if st.queue.len() > 0 {
            ChannelModel {
                queue: st.queue.drop_first(),
                sent: st.sent,
                received: st.received.push(st.queue[0]),
            }
        } else {
            st
        }
    }
}

/// The state after an arbitrary interleaving of producer and consumer
/// steps (`true` = producer, `false` = consumer).
pub open spec fn channel_run(sched: Seq<bool>, frames: Seq<Frame>, cap: int) -> ChannelModel
    decreases sched.len(),
{
    if sched.len() == 0 {
        channel_init()
    } else {
        channel_step(channel_run(sched.drop_last(), frames, cap), sched.last(), frames, cap)
    }
}

/// FIFO delivery and the backpressure bound: under every interleaving
/// of producer and consumer steps, the consumer observes exactly a
/// prefix of the sent frames, in order, with no duplication or loss
/// (what was sent is what was received plus what is still queued), and
/// the queue never holds more than `cap` frames.
pub proof fn lemma_fifo_delivery(sched: Seq<bool>, frames: Seq<Frame>, cap: int)
    requires
        cap >= 1,
    ensures
        ({
            let st = channel_run(sched, frames, cap);
            &&& 0 <= st.sent <= frames.len()
            &&& st.queue.len() <= cap
            &&& st.received.len() + st.queue.len() == st.sent
            &&& st.received + st.queue == frames.subrange(0, st.sent)
            &&& st.received == frames.subrange(0, st.received.len() as int)
        }),
    decreases sched.len(),
{
    if sched.len() == 0 {
        let st = channel_run(sched, frames, cap);
        assert(st.received + st.queue =~= frames.subrange(0, 0));
        assert(st.received =~= frames.subrange(0, 0));
    } else {
        lemma_fifo_delivery(sched.drop_last(), frames, cap);
        let prev = channel_run(sched.drop_last(), frames, cap);
        let st = channel_run(sched, frames, cap);
        if sched.last() {
            if prev.sent < frames.len() && prev.queue.len() < cap {
                assert(st.received + st.queue =~= (prev.received + prev.queue).push(
                    frames[prev.sent]));
                assert((prev.received + prev.queue).push(frames[prev.sent]) =~= frames.subrange(
                    0,
                    st.sent,
                ));
            }
        } else {
            if prev.queue.len() > 0 {
                assert(st.received + st.queue =~= prev.received + prev.queue);
            }
        }
        assert(st.received =~= frames.subrange(0, st.received.len() as int)) by {
            assert(st.received + st.queue == frames.subrange(0, st.sent));
            assert(forall|i: int| 0 <= i < st.received.len()
                ==> st.received[i] == (st.received + st.queue)[i]);
        }
    }
}

} // verus!
