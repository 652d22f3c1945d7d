//! Routing of inbound messages to the connections they name.
use vstd::prelude::*;
use vstd::string::StringExecFns;
use crate::message::{Frame, Message};
use crate::model::{connected_state, disconnected_state, lemma_route_wf, route_target};
use crate::registry::Registry;

verus! {

/// The connection that an inbound message is delivered to; `None` for the
/// messages that only the server sends.
pub fn target_of(m: &Message) -> (r: Option<u64>)
    ensures
        r == route_target(m@),
{
    match m {
        Message::PeerStateChange { to_id, .. } => Some(*to_id),
        Message::ConnectionRequest { to_id } => Some(*to_id),
        Message::ConnectionResponse { from_id } => Some(*from_id),
        Message::RTCOffer { to_id, .. } => Some(*to_id),
        Message::RTCAnswer { to_id, .. } => Some(*to_id),
        Message::RTCCandidate { to_id, .. } => Some(*to_id),
        Message::Welcome { .. } => None,
        Message::UserList { .. } => None,
    }
}

impl Registry {
    /// Delivers inbound text `raw`, decoded as `m`, verbatim to the live
    /// connection that `m` names, and updates pairing for a peer state change.
    /// A message whose target is not live, and one that only the server
    /// sends, is dropped.
    pub fn route(&mut self, m: &Message, raw: String)
        requires
            old(self).wf(),
        ensures
            final(self).wf(),
            final(self)@ == old(self)@.route(m@, raw@),
    {
        let ghost v0 = self@;
        match target_of(m) {
            Some(t) => self.enqueue(t, Frame::Raw(raw)),
            None => {},
        }
        proof { lemma_route_wf(v0, m@, raw@); }
        match m {
            Message::PeerStateChange { from_id, to_id, state } => {
                let connected = String::from_str("connected");
                let disconnected = String::from_str("disconnected");
                proof {
                    reveal_strlit("connected");
                    reveal_strlit("disconnected");
                    assert(connected@ =~= connected_state());
                    assert(disconnected@ =~= disconnected_state());
                }
                if *state == connected {
                    self.pair(*from_id, *to_id);
                } else if *state == disconnected {
                    self.unpair(*from_id, *to_id);
                }
            },
            _ => {},
        }
    }

    /// Handles a text frame from `id` received at time `now` and decoded as
    /// `m`: records the activity, then routes the message.
    pub fn receive(&mut self, id: u64, now: u64, m: &Message, raw: String)
        requires
            old(self).wf(),
        ensures
            final(self).wf(),
            final(self)@ == old(self)@.receive(id, now, m@, raw@),
    {
        self.touch(id, now);
        self.route(m, raw);
    }
}

} // verus!
