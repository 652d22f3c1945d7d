//! The abstract state of the registry and the transition that each event
//! causes. The executable registry is proved to follow these transitions.
use vstd::prelude::*;
use crate::message::{user_of, FrameView, MessageView};

verus! {

/// Milliseconds between two heartbeat pings.
pub const HEARTBEAT_INTERVAL_MS: u64 = 30_000;

/// Milliseconds without inbound activity after which a connection is evicted.
pub const IDLE_TIMEOUT_MS: u64 = 60_000;

/// Milliseconds between two idle checks of one connection.
pub const IDLE_CHECK_INTERVAL_MS: u64 = 30_000;

/// What the registry knows of one live connection.
pub struct RecordView {
    /// Time of the last inbound frame, in milliseconds.
    pub last_activity: u64,
    /// The peers this connection is paired with.
    pub paired: Set<u64>,
    /// Frames enqueued for this connection and not yet taken by its writer.
    pub queue: Seq<FrameView>,
}

/// What the registry knows of all connections.
pub struct RegistryView {
    /// The identity that the next connection receives.
    pub next_id: u64,
    /// The live identities, in the order in which they registered.
    pub roster: Seq<u64>,
    /// The record of each live identity.
    pub records: Map<u64, RecordView>,
}

pub open spec fn connected_state() -> Seq<char> {
    seq!['c', 'o', 'n', 'n', 'e', 'c', 't', 'e', 'd']
}

pub open spec fn disconnected_state() -> Seq<char> {
    seq!['d', 'i', 's', 'c', 'o', 'n', 'n', 'e', 'c', 't', 'e', 'd']
}

/// The notice that `peer` receives when connection `id` goes away.
pub open spec fn disconnect_notice(id: u64, peer: u64) -> FrameView {
    FrameView::Message(
        MessageView::PeerStateChange { from_id: id, to_id: peer, state: disconnected_state() },
    )
}

/// The roster message listing the connections in `roster`.
pub open spec fn roster_frame(roster: Seq<u64>) -> FrameView {
    FrameView::Message(MessageView::UserList { users: roster.map_values(|id: u64| user_of(id)) })
}

/// The connection that a message inbound from a peer is delivered to, if any.
pub open spec fn route_target(m: MessageView) -> Option<u64> {
    match m {
        MessageView::PeerStateChange { to_id, .. } => Some(to_id),
        MessageView::ConnectionRequest { to_id } => Some(to_id),
        MessageView::ConnectionResponse { from_id } => Some(from_id),
        MessageView::RTCOffer { to_id, .. } => Some(to_id),
        MessageView::RTCAnswer { to_id, .. } => Some(to_id),
        MessageView::RTCCandidate { to_id, .. } => Some(to_id),
        _ => None,
    }
}

impl RecordView {
    pub open spec fn fresh(now: u64, id: u64) -> RecordView {
        RecordView {
            last_activity: now,
            paired: Set::empty(),
            queue: seq![FrameView::Message(MessageView::Welcome { user_id: id })],
        }
    }
}

impl RegistryView {
    pub open spec fn live(self, id: u64) -> bool {
        self.records.contains_key(id)
    }

    /// The registry invariant: the shape below, and pairing symmetric between
    /// live connections.
    pub open spec fn wf(self) -> bool {
        &&& self.shape()
        &&& self.symmetric()
    }

    /// Identities are issued below `next_id` and listed once in the roster;
    /// peers named in pairing sets were issued.
    pub open spec fn shape(self) -> bool {
        &&& 1 <= self.next_id
        &&& self.roster.no_duplicates()
        &&& forall|id: u64| self.records.contains_key(id) <==> self.roster.contains(id)
        &&& forall|id: u64| #[trigger] self.records.contains_key(id) ==> 1 <= id < self.next_id
        &&& forall|a: u64, b: u64|
            self.records.contains_key(a) && #[trigger] self.records[a].paired.contains(b)
                ==> b < self.next_id
    }

    pub open spec fn symmetric(self) -> bool {
        forall|a: u64, b: u64|
            self.records.contains_key(a) && self.records.contains_key(b)
                && #[trigger] self.records[a].paired.contains(b)
                ==> #[trigger] self.records[b].paired.contains(a)
    }

    /// Appends `f` to the queue of `id`, if `id` is live.
    pub open spec fn enqueue(self, id: u64, f: FrameView) -> RegistryView {
        if self.live(id) {
            RegistryView {
                records: self.records.insert(
                    id,
                    RecordView { queue: self.records[id].queue.push(f), ..self.records[id] },
                ),
                ..self
            }
        } else {
            self
        }
    }

    /// Records inbound activity of `id` at time `now`, if `id` is live.
    pub open spec fn touch(self, id: u64, now: u64) -> RegistryView {
        if self.live(id) {
            RegistryView {
                records: self.records.insert(id, RecordView { last_activity: now, ..self.records[id] }),
                ..self
            }
        } else {
            self
        }
    }

    /// Adds `peer` to the pairing set of `id`, if `id` is live and `peer` was issued.
    pub open spec fn add_peer(self, id: u64, peer: u64) -> RegistryView {
        if self.live(id) && peer < self.next_id {
            RegistryView {
                records: self.records.insert(
                    id,
                    RecordView { paired: self.records[id].paired.insert(peer), ..self.records[id] },
                ),
                ..self
            }
        } else {
            self
        }
    }

    /// Removes `peer` from the pairing set of `id`, if `id` is live.
    pub open spec fn drop_peer(self, id: u64, peer: u64) -> RegistryView {
        if self.live(id) {
            RegistryView {
                records: self.records.insert(
                    id,
                    RecordView { paired: self.records[id].paired.remove(peer), ..self.records[id] },
                ),
                ..self
            }
        } else {
            self
        }
    }

    /// Pairs `a` and `b` on each side that is live.
    pub open spec fn pair(self, a: u64, b: u64) -> RegistryView {
        self.add_peer(a, b).add_peer(b, a)
    }

    /// Unpairs `a` and `b` on each side that is live.
    pub open spec fn unpair(self, a: u64, b: u64) -> RegistryView {
        self.drop_peer(a, b).drop_peer(b, a)
    }

    /// Enqueues the current roster to every live connection.
    pub open spec fn broadcast_roster(self) -> RegistryView {
        RegistryView {
            records: Map::new(
                |id: u64| self.records.contains_key(id),
                |id: u64|
                    RecordView {
                        queue: self.records[id].queue.push(roster_frame(self.roster)),
                        ..self.records[id]
                    },
            ),
            ..self
        }
    }

    /// Registers a new connection under `next_id` at time `now`, with a
    /// welcome message in its queue, then broadcasts the roster.
    pub open spec fn connect(self, now: u64) -> RegistryView {
        RegistryView {
            next_id: (self.next_id + 1) as u64,
            roster: self.roster.push(self.next_id),
            records: self.records.insert(self.next_id, RecordView::fresh(now, self.next_id)),
        }.broadcast_roster()
    }

    /// Delivers inbound text `raw`, decoded as `m`, to its target, and
    /// updates pairing for a peer state change.
    pub open spec fn route(self, m: MessageView, raw: Seq<char>) -> RegistryView {
        let delivered = match route_target(m) {
            Some(t) => self.enqueue(t, FrameView::Raw(raw)),
            None => self,
        };
        match m {
            MessageView::PeerStateChange { from_id, to_id, state } => {
                if state == connected_state() {
                    delivered.pair(from_id, to_id)
                } else if state == disconnected_state() {
                    delivered.unpair(from_id, to_id)
                } else {
                    delivered
                }
            },
            _ => delivered,
        }
    }

    /// Handles a decoded text frame from `id` at time `now`.
    pub open spec fn receive(self, id: u64, now: u64, m: MessageView, raw: Seq<char>) -> RegistryView {
        self.touch(id, now).route(m, raw)
    }

    /// Enqueues a disconnect notice from `id` to each live peer paired with it.
    pub open spec fn notify_peers(self, id: u64) -> RegistryView {
        RegistryView {
            records: Map::new(
                |p: u64| self.records.contains_key(p),
                |p: u64|
                    if self.records[id].paired.contains(p) {
                        RecordView {
                            queue: self.records[p].queue.push(disconnect_notice(id, p)),
                            ..self.records[p]
                        }
                    } else {
                        self.records[p]
                    },
            ),
            ..self
        }
    }

    /// Removes `id` from the registry.
    pub open spec fn remove(self, id: u64) -> RegistryView {
        RegistryView {
            roster: self.roster.remove(self.roster.index_of(id)),
            records: self.records.remove(id),
            ..self
        }
    }

    /// The closing of `id`: its peers are notified, its record removed and
    /// the roster broadcast. Nothing happens if `id` is not live.
    pub open spec fn close(self, id: u64) -> RegistryView {
        if self.live(id) {
            self.notify_peers(id).remove(id).broadcast_roster()
        } else {
            self
        }
    }

    /// The record that the closing of live `id` removes.
    pub open spec fn closing_record(self, id: u64) -> RecordView {
        self.notify_peers(id).records[id]
    }

    /// Whether `id` has seen no inbound activity for more than the idle timeout at `now`.
    pub open spec fn idle_expired(self, id: u64, now: u64) -> bool {
        now - self.records[id].last_activity > IDLE_TIMEOUT_MS
    }

    /// The writer of `id` takes every frame queued for it.
    pub open spec fn take(self, id: u64) -> RegistryView {
        if self.live(id) {
            RegistryView {
                records: self.records.insert(id, RecordView { queue: Seq::empty(), ..self.records[id] }),
                ..self
            }
        } else {
            self
        }
    }

    /// The eviction of `id`: a close frame is enqueued to it, then it is closed.
    pub open spec fn evict(self, id: u64) -> RegistryView {
        self.enqueue(id, FrameView::Close).close(id)
    }
}

/// A registry that differs from a well-shaped one only in queues and
/// activity times is well shaped, and symmetric if the other is.
pub proof fn lemma_same_shape(v: RegistryView, w: RegistryView)
    requires
        v.shape(),
        w.next_id == v.next_id,
        w.roster == v.roster,
        w.records.dom() == v.records.dom(),
        forall|id: u64| #[trigger] w.records.contains_key(id) ==> w.records[id].paired == v.records[id].paired,
    ensures
        w.shape(),
        v.symmetric() ==> w.symmetric(),
{
    assert forall|id: u64| w.records.contains_key(id) <==> w.roster.contains(id) by {
        assert(w.records.contains_key(id) == v.records.contains_key(id));
    }
    assert forall|id: u64| #[trigger] w.records.contains_key(id) implies 1 <= id < w.next_id by {
        assert(v.records.contains_key(id));
    }
}

/// Pairing two identities keeps the registry well formed.
pub proof fn lemma_pair_wf(v: RegistryView, a: u64, b: u64)
    requires
        v.wf(),
    ensures
        v.pair(a, b).wf(),
{
    let w = v.pair(a, b);
    assert(w.records.dom() =~= v.records.dom());
    assert forall|x: u64, y: u64|
        w.records.contains_key(x) && #[trigger] w.records[x].paired.contains(y) implies y < w.next_id by {
        assert(v.records.contains_key(x));
    }
    assert forall|x: u64, y: u64|
        w.records.contains_key(x) && w.records.contains_key(y)
            && #[trigger] w.records[x].paired.contains(y)
        implies #[trigger] w.records[y].paired.contains(x) by {
        assert(v.records.contains_key(x) && v.records.contains_key(y));
    }
    assert forall|id: u64| #[trigger] w.records.contains_key(id) implies 1 <= id < w.next_id by {
        assert(v.records.contains_key(id));
    }
}

/// Unpairing two identities keeps the registry well formed.
pub proof fn lemma_unpair_wf(v: RegistryView, a: u64, b: u64)
    requires
        v.wf(),
    ensures
        v.unpair(a, b).wf(),
{
    let w = v.unpair(a, b);
    assert(w.records.dom() =~= v.records.dom());
    assert forall|x: u64, y: u64|
        w.records.contains_key(x) && #[trigger] w.records[x].paired.contains(y) implies y < w.next_id by {
        assert(v.records.contains_key(x));
    }
    assert forall|x: u64, y: u64|
        w.records.contains_key(x) && w.records.contains_key(y)
            && #[trigger] w.records[x].paired.contains(y)
        implies #[trigger] w.records[y].paired.contains(x) by {
        assert(v.records.contains_key(x) && v.records.contains_key(y));
    }
    assert forall|id: u64| #[trigger] w.records.contains_key(id) implies 1 <= id < w.next_id by {
        assert(v.records.contains_key(id));
    }
}

/// Registering a connection keeps the registry well formed.
pub proof fn lemma_register_wf(v: RegistryView, now: u64)
    requires
        v.wf(),
        v.next_id < u64::MAX,
    ensures
        ({
            let w = RegistryView {
                next_id: (v.next_id + 1) as u64,
                roster: v.roster.push(v.next_id),
                records: v.records.insert(v.next_id, RecordView::fresh(now, v.next_id)),
            };
            w.wf()
        }),
{
    let w = RegistryView {
        next_id: (v.next_id + 1) as u64,
        roster: v.roster.push(v.next_id),
        records: v.records.insert(v.next_id, RecordView::fresh(now, v.next_id)),
    };
    assert(!v.roster.contains(v.next_id));
    assert forall|a: int, b: int| 0 <= a < b < w.roster.len() implies w.roster[a] != w.roster[b] by {
        if b == v.roster.len() {
            assert(v.roster.contains(v.roster[a]));
        }
    }
    assert forall|id: u64| w.records.contains_key(id) <==> w.roster.contains(id) by {
        if v.roster.contains(id) {
            let k = choose|k: int| 0 <= k < v.roster.len() && v.roster[k] == id;
            assert(w.roster[k] == id);
        }
        if id == v.next_id {
            assert(w.roster[v.roster.len() as int] == id);
        }
        if w.roster.contains(id) && id != v.next_id {
            let k = choose|k: int| 0 <= k < w.roster.len() && w.roster[k] == id;
            assert(v.roster[k] == id);
        }
    }
    assert forall|a: u64, b: u64|
        w.records.contains_key(a) && w.records.contains_key(b)
            && #[trigger] w.records[a].paired.contains(b)
        implies #[trigger] w.records[b].paired.contains(a) by {
        if a != v.next_id && b == v.next_id {
            assert(v.records[a].paired.contains(b));
        }
    }
}

/// Broadcasting the roster keeps the registry well formed.
pub proof fn lemma_broadcast_wf(v: RegistryView)
    requires
        v.wf(),
    ensures
        v.broadcast_roster().wf(),
{
    let w = v.broadcast_roster();
    assert(w.records.dom() =~= v.records.dom());
    lemma_same_shape(v, w);
}

/// Connecting keeps the registry well formed.
pub proof fn lemma_connect_wf(v: RegistryView, now: u64)
    requires
        v.wf(),
        v.next_id < u64::MAX,
    ensures
        v.connect(now).wf(),
{
    lemma_register_wf(v, now);
    let w = RegistryView {
        next_id: (v.next_id + 1) as u64,
        roster: v.roster.push(v.next_id),
        records: v.records.insert(v.next_id, RecordView::fresh(now, v.next_id)),
    };
    lemma_broadcast_wf(w);
}

/// Enqueueing a frame keeps the registry well formed.
pub proof fn lemma_enqueue_wf(v: RegistryView, id: u64, f: FrameView)
    requires
        v.wf(),
    ensures
        v.enqueue(id, f).wf(),
{
    let w = v.enqueue(id, f);
    assert(w.records.dom() =~= v.records.dom());
    lemma_same_shape(v, w);
}

/// Routing an inbound message keeps the registry well formed.
pub proof fn lemma_route_wf(v: RegistryView, m: MessageView, raw: Seq<char>)
    requires
        v.wf(),
    ensures
        v.route(m, raw).wf(),
{
    let d = match route_target(m) {
        Some(t) => v.enqueue(t, FrameView::Raw(raw)),
        None => v,
    };
    if let Some(t) = route_target(m) {
        lemma_enqueue_wf(v, t, FrameView::Raw(raw));
    }
    if let MessageView::PeerStateChange { from_id, to_id, state } = m {
        lemma_pair_wf(d, from_id, to_id);
        lemma_unpair_wf(d, from_id, to_id);
    }
}

/// Closing a connection keeps the registry well formed.
pub proof fn lemma_close_wf(v: RegistryView, id: u64)
    requires
        v.wf(),
    ensures
        v.close(id).wf(),
{
    if v.live(id) {
        let n = v.notify_peers(id);
        assert(n.records.dom() =~= v.records.dom());
        lemma_same_shape(v, n);
        let w = n.remove(id);
        let k = n.roster.index_of(id);
        assert(n.roster.contains(id));
        assert(n.roster[k] == id);
        assert forall|x: int| 0 <= x < w.roster.len() implies #[trigger] w.roster[x] == (if x < k { n.roster[x] } else { n.roster[x + 1] }) by {
        }
        assert forall|a: int, b: int| 0 <= a < b < w.roster.len() implies w.roster[a] != w.roster[b] by {
            let a2 = if a < k { a } else { a + 1 };
            let b2 = if b < k { b } else { b + 1 };
            assert(w.roster[a] == n.roster[a2] && w.roster[b] == n.roster[b2]);
        }
        assert forall|x: u64| w.records.contains_key(x) <==> w.roster.contains(x) by {
            if w.roster.contains(x) {
                let j = choose|j: int| 0 <= j < w.roster.len() && w.roster[j] == x;
                let j2 = if j < k { j } else { j + 1 };
                assert(n.roster[j2] == x);
                assert(j2 != k);
                assert(n.roster.no_duplicates());
                assert(x != id);
                assert(n.roster.contains(x));
                assert(n.records.contains_key(x));
            }
            if w.records.contains_key(x) {
                assert(n.roster.contains(x));
                let j = choose|j: int| 0 <= j < n.roster.len() && n.roster[j] == x;
                assert(j != k);
                let j1 = if j < k { j } else { j - 1 };
                assert(w.roster[j1] == x);
            }
        }
        assert forall|x: u64| #[trigger] w.records.contains_key(x) implies 1 <= x < w.next_id by {
            assert(n.records.contains_key(x));
        }
        assert forall|a: u64, b: u64|
            w.records.contains_key(a) && #[trigger] w.records[a].paired.contains(b) implies b < w.next_id by {
            assert(n.records.contains_key(a));
        }
        assert forall|a: u64, b: u64|
            w.records.contains_key(a) && w.records.contains_key(b)
                && #[trigger] w.records[a].paired.contains(b)
            implies #[trigger] w.records[b].paired.contains(a) by {
            assert(n.records.contains_key(a) && n.records.contains_key(b));
        }
        lemma_broadcast_wf(w);
    }
}

/// Evicting a connection keeps the registry well formed.
pub proof fn lemma_evict_wf(v: RegistryView, id: u64)
    requires
        v.wf(),
    ensures
        v.evict(id).wf(),
{
    lemma_enqueue_wf(v, id, FrameView::Close);
    lemma_close_wf(v.enqueue(id, FrameView::Close), id);
}

/// Recording activity keeps the registry well formed.
pub proof fn lemma_touch_wf(v: RegistryView, id: u64, now: u64)
    requires
        v.wf(),
    ensures
        v.touch(id, now).wf(),
{
    let w = v.touch(id, now);
    assert(w.records.dom() =~= v.records.dom());
    lemma_same_shape(v, w);
}

/// Taking a connection's queued frames keeps the registry well formed.
pub proof fn lemma_take_wf(v: RegistryView, id: u64)
    requires
        v.wf(),
    ensures
        v.take(id).wf(),
{
    let w = v.take(id);
    assert(w.records.dom() =~= v.records.dom());
    lemma_same_shape(v, w);
}

} // verus!
