//! Decisions of the per-connection timers: heartbeat pings and idle eviction.
use vstd::prelude::*;
use crate::message::{Frame, FrameView};
use crate::model::IDLE_TIMEOUT_MS;
use crate::registry::{frames_view, Registry};

verus! {

/// What an idle check decided.
pub enum IdleVerdict {
    /// The connection is gone already; its timer stops.
    Gone,
    /// The connection has been active recently enough; its timer goes on.
    Active,
    /// The connection was evicted; these frames, ending with a close frame,
    /// remain to be written to it before its stream is closed.
    Evicted(Vec<Frame>),
}

impl Registry {
    /// A heartbeat tick for `id`: enqueues a ping if `id` is live. Returns
    /// whether it was, that is whether the heartbeat goes on.
    pub fn heartbeat(&mut self, id: u64) -> (r: bool)
        requires
            old(self).wf(),
        ensures
            final(self).wf(),
            r == old(self)@.live(id),
            final(self)@ == old(self)@.enqueue(id, FrameView::Ping),
    {
        let live = self.contains(id);
        self.enqueue(id, Frame::Ping);
        live
    }

    /// An idle check of `id` at time `now`. A live connection without inbound
    /// activity for more than the idle timeout is sent a close frame and
    /// closed, with the same peer notices and roster broadcast as a close by
    /// the client.
    pub fn idle_check(&mut self, id: u64, now: u64) -> (r: IdleVerdict)
        requires
            old(self).wf(),
        ensures
            final(self).wf(),
            !old(self)@.live(id) ==> r is Gone && final(self)@ == old(self)@,
            old(self)@.live(id) && !old(self)@.idle_expired(id, now) ==> r is Active && final(self)@ == old(self)@,
            old(self)@.live(id) && old(self)@.idle_expired(id, now) ==> {
                &&& final(self)@ == old(self)@.evict(id)
                &&& r matches IdleVerdict::Evicted(frames)
                &&& frames_view(frames@) == old(self)@.enqueue(id, FrameView::Close).closing_record(id).queue
            },
    {
        match self.last_activity(id) {
            None => IdleVerdict::Gone,
            Some(last) => {
                if now >= last && now - last > IDLE_TIMEOUT_MS {
                    self.enqueue(id, Frame::Close);
                    match self.close(id) {
                        Some(frames) => IdleVerdict::Evicted(frames),
                        None => IdleVerdict::Gone,
                    }
                } else {
                    IdleVerdict::Active
                }
            },
        }
    }
}

} // verus!
