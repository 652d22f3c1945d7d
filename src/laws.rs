//! Properties of the registry that relate several operations, proved over
//! the transitions of `model`.
use vstd::prelude::*;
use crate::message::{FrameView, MessageView};
use crate::model::{
    connected_state, disconnect_notice, lemma_close_wf, lemma_connect_wf, lemma_enqueue_wf,
    lemma_evict_wf, lemma_route_wf, lemma_take_wf, lemma_touch_wf, roster_frame, route_target,
    RecordView, RegistryView, IDLE_CHECK_INTERVAL_MS, IDLE_TIMEOUT_MS,
};

verus! {

/// Connects one connection for each time in `nows`, in order; returns the
/// registry afterwards and the identities issued.
pub open spec fn connect_each(v: RegistryView, nows: Seq<u64>) -> (RegistryView, Seq<u64>)
    decreases nows.len(),
{
    if nows.len() == 0 {
        (v, Seq::empty())
    } else {
        let rest = connect_each(v.connect(nows[0]), nows.drop_first());
        (rest.0, seq![v.next_id] + rest.1)
    }
}

/// Identities issued to successive connections are distinct, strictly
/// increasing in the order of issue, and name no connection live before.
pub proof fn lemma_ids_unique_increasing(v: RegistryView, nows: Seq<u64>)
    requires
        v.wf(),
        v.next_id + nows.len() <= u64::MAX,
    ensures
        ({
            let ids = connect_each(v, nows).1;
            &&& ids.len() == nows.len()
            &&& forall|i: int, j: int| 0 <= i < j < ids.len() ==> ids[i] < ids[j]
            &&& forall|i: int| 0 <= i < ids.len() ==> !v.live(#[trigger] ids[i])
            &&& connect_each(v, nows).0.wf()
        }),
    decreases nows.len(),
{
    if nows.len() > 0 {
        let w = v.connect(nows[0]);
        lemma_connect_wf(v, nows[0]);
        lemma_ids_unique_increasing(w, nows.drop_first());
        lemma_issued_from(w, nows.drop_first());
        let ids = connect_each(v, nows).1;
        let rest = connect_each(w, nows.drop_first()).1;
        assert forall|i: int| 0 <= i < ids.len() implies ids[i] == v.next_id + i by {
            if i > 0 {
                assert(ids[i] == rest[i - 1]);
            }
        }
    }
}

/// The identities issued from `v` count up from its `next_id`.
proof fn lemma_issued_from(v: RegistryView, nows: Seq<u64>)
    requires
        v.next_id + nows.len() <= u64::MAX,
    ensures
        forall|i: int| 0 <= i < connect_each(v, nows).1.len() ==> #[trigger] connect_each(v, nows).1[i] == v.next_id + i,
        connect_each(v, nows).1.len() == nows.len(),
    decreases nows.len(),
{
    if nows.len() > 0 {
        let w = v.connect(nows[0]);
        lemma_issued_from(w, nows.drop_first());
        let ids = connect_each(v, nows).1;
        let rest = connect_each(w, nows.drop_first()).1;
        assert forall|i: int| 0 <= i < ids.len() implies #[trigger] ids[i] == v.next_id + i by {
            if i > 0 {
                assert(ids[i] == rest[i - 1]);
            }
        }
    }
}

/// One `connected` state change, sent by either side, pairs both live sides
/// at once.
pub proof fn lemma_connected_pairs_both(
    v: RegistryView,
    sender: u64,
    now: u64,
    from_id: u64,
    to_id: u64,
    raw: Seq<char>,
)
    requires
        v.wf(),
        v.live(from_id),
        v.live(to_id),
    ensures
        ({
            let w = v.receive(
                sender,
                now,
                MessageView::PeerStateChange { from_id, to_id, state: connected_state() },
                raw,
            );
            &&& w.wf()
            &&& w.records[from_id].paired.contains(to_id)
            &&& w.records[to_id].paired.contains(from_id)
        }),
{
    let m = MessageView::PeerStateChange { from_id, to_id, state: connected_state() };
    let t = v.touch(sender, now);
    lemma_touch_wf(v, sender, now);
    lemma_route_wf(t, m, raw);
    let d = t.enqueue(to_id, FrameView::Raw(raw));
    assert(d.live(from_id) && d.live(to_id));
    assert(to_id < d.next_id && from_id < d.next_id);
}

/// A message addressed to a live connection is delivered verbatim to that
/// connection alone: its queue gains the inbound text, every other queue
/// stays as it was.
pub proof fn lemma_route_delivers_to_target(v: RegistryView, m: MessageView, raw: Seq<char>)
    requires
        v.wf(),
        route_target(m) is Some,
        v.live(route_target(m)->0),
    ensures
        ({
            let t = route_target(m)->0;
            let w = v.route(m, raw);
            &&& w.roster == v.roster
            &&& w.records.dom() == v.records.dom()
            &&& w.records[t].queue == v.records[t].queue.push(FrameView::Raw(raw))
            &&& forall|q: u64| #[trigger] w.live(q) && q != t ==> w.records[q].queue == v.records[q].queue
        }),
{
    let t = route_target(m)->0;
    let d = v.enqueue(t, FrameView::Raw(raw));
    assert(d.records.dom() =~= v.records.dom());
    let w = v.route(m, raw);
    assert(w.records.dom() =~= v.records.dom());
}

/// A message addressed to an identity that is not live reaches no queue;
/// unless it is a peer state change, it leaves the registry as it was.
pub proof fn lemma_route_drops_unknown_target(v: RegistryView, m: MessageView, raw: Seq<char>)
    requires
        v.wf(),
        route_target(m) is Some,
        !v.live(route_target(m)->0),
    ensures
        ({
            let w = v.route(m, raw);
            &&& w.roster == v.roster
            &&& w.records.dom() == v.records.dom()
            &&& forall|q: u64| #[trigger] w.live(q) ==> w.records[q].queue == v.records[q].queue
            &&& !(m is PeerStateChange) ==> w == v
        }),
{
    let w = v.route(m, raw);
    assert(w.records.dom() =~= v.records.dom());
}

/// When connection `id` closes, each live peer paired with it receives
/// exactly one disconnect notice from it, then every remaining connection
/// receives a roster that lists the remaining connections only.
pub proof fn lemma_close_fan_out(v: RegistryView, id: u64)
    requires
        v.wf(),
        v.live(id),
    ensures
        ({
            let w = v.close(id);
            &&& w.wf()
            &&& !w.live(id)
            &&& forall|q: u64| #[trigger] w.live(q) <==> v.live(q) && q != id
            &&& w.roster.to_set() == v.roster.to_set().remove(id)
            &&& forall|q: u64| #[trigger] w.live(q) ==> w.records[q].queue == (if v.records[id].paired.contains(q) {
                v.records[q].queue.push(disconnect_notice(id, q))
            } else {
                v.records[q].queue
            }).push(roster_frame(w.roster))
        }),
{
    lemma_close_wf(v, id);
    let w = v.close(id);
    assert forall|q: u64| #[trigger] w.roster.to_set().contains(q) == v.roster.to_set().remove(id).contains(q) by {
        assert(w.roster.contains(q) == w.live(q));
        assert(v.roster.contains(q) == v.live(q));
    }
    assert(w.roster.to_set() =~= v.roster.to_set().remove(id));
}

/// A live connection that has had no inbound activity for longer than the
/// idle timeout is evicted at an idle check: it leaves the registry, and
/// each live peer paired with it receives exactly one disconnect notice,
/// followed by the roster of the remaining connections.
pub proof fn lemma_idle_eviction(v: RegistryView, id: u64, now: u64)
    requires
        v.wf(),
        v.live(id),
        now > v.records[id].last_activity + IDLE_TIMEOUT_MS,
    ensures
        v.idle_expired(id, now),
        ({
            let w = v.evict(id);
            &&& w.wf()
            &&& !w.live(id)
            &&& forall|q: u64| #[trigger] w.live(q) <==> v.live(q) && q != id
            &&& forall|q: u64| #[trigger] w.live(q) && v.records[id].paired.contains(q) ==>
                w.records[q].queue == v.records[q].queue.push(disconnect_notice(id, q)).push(roster_frame(w.roster))
        }),
{
    let e = v.enqueue(id, FrameView::Close);
    lemma_enqueue_wf(v, id, FrameView::Close);
    lemma_close_fan_out(e, id);
    lemma_evict_wf(v, id);
}

/// Heartbeat pings change no connection's activity time, so a client that
/// never answers them keeps ageing towards eviction.
pub proof fn lemma_ping_keeps_activity(v: RegistryView, id: u64)
    requires
        v.wf(),
    ensures
        ({
            let w = v.enqueue(id, FrameView::Ping);
            &&& w.records.dom() == v.records.dom()
            &&& forall|q: u64| #[trigger] w.live(q) ==> w.records[q].last_activity == v.records[q].last_activity
        }),
{
    let w = v.enqueue(id, FrameView::Ping);
    assert(w.records.dom() =~= v.records.dom());
}

/// With idle checks every check interval from a first check at or before
/// the moment the idle timeout runs out, some check falls after that moment
/// and at most one interval later.
pub proof fn lemma_idle_check_deadline(last_activity: int, first_check: int)
    requires
        first_check <= last_activity + IDLE_TIMEOUT_MS,
    ensures
        exists|k: nat| {
            let t = #[trigger] (first_check + k * IDLE_CHECK_INTERVAL_MS);
            last_activity + IDLE_TIMEOUT_MS < t <= last_activity + IDLE_TIMEOUT_MS + IDLE_CHECK_INTERVAL_MS
        },
{
    let d = last_activity + IDLE_TIMEOUT_MS - first_check;
    let k = (d / (IDLE_CHECK_INTERVAL_MS as int) + 1) as nat;
    assert(d >= 0);
    assert(k * IDLE_CHECK_INTERVAL_MS == (d / 30000) * 30000 + 30000) by (nonlinear_arith)
        requires
            k == d / 30000 + 1,
            IDLE_CHECK_INTERVAL_MS == 30000,
    ;
    assert(d - 30000 < (d / 30000) * 30000 <= d) by (nonlinear_arith)
        requires
            d >= 0,
    ;
    let t = first_check + k * IDLE_CHECK_INTERVAL_MS;
    assert(last_activity + IDLE_TIMEOUT_MS < t <= last_activity + IDLE_TIMEOUT_MS + IDLE_CHECK_INTERVAL_MS);
}

/// An event that changes the registry.
pub enum Event {
    /// A new stream was accepted.
    Connect { now: u64 },
    /// A text frame from `id`, decoded as `m`.
    Receive { id: u64, now: u64, m: MessageView, raw: Seq<char> },
    /// A pong or another frame that only shows `id` is alive.
    Activity { id: u64, now: u64 },
    /// A heartbeat tick of `id`.
    Heartbeat { id: u64 },
    /// An idle check of `id`.
    IdleCheck { id: u64, now: u64 },
    /// The stream of `id` closed or failed.
    Close { id: u64 },
    /// The writer of `id` took its queued frames.
    Take { id: u64 },
}

/// The registry after event `e`.
pub open spec fn step(v: RegistryView, e: Event) -> RegistryView {
    match e {
        Event::Connect { now } => if v.next_id < u64::MAX { v.connect(now) } else { v },
        Event::Receive { id, now, m, raw } => v.receive(id, now, m, raw),
        Event::Activity { id, now } => v.touch(id, now),
        Event::Heartbeat { id } => v.enqueue(id, FrameView::Ping),
        Event::IdleCheck { id, now } => if v.live(id) && v.idle_expired(id, now) { v.evict(id) } else { v },
        Event::Close { id } => v.close(id),
        Event::Take { id } => v.take(id),
    }
}

/// The registry after the events `es`, in order.
pub open spec fn run(v: RegistryView, es: Seq<Event>) -> RegistryView
    decreases es.len(),
{
    if es.len() == 0 { v } else { run(step(v, es[0]), es.drop_first()) }
}

/// Whether every connection live in both `v` and `w` has in `w` the queue it
/// had in `v` with frames appended.
pub open spec fn queues_extend(v: RegistryView, w: RegistryView) -> bool {
    forall|q: u64| v.live(q) && #[trigger] w.live(q) ==> v.records[q].queue.is_prefix_of(w.records[q].queue)
}

proof fn lemma_prefix_push<A>(s: Seq<A>, x: A)
    ensures
        s.is_prefix_of(s.push(x)),
{
    assert(s =~= s.push(x).subrange(0, s.len() as int));
}

proof fn lemma_prefix_trans<A>(a: Seq<A>, b: Seq<A>, c: Seq<A>)
    requires
        a.is_prefix_of(b),
        b.is_prefix_of(c),
    ensures
        a.is_prefix_of(c),
{
    assert(a =~= c.subrange(0, a.len() as int)) by {
        assert forall|i: int| 0 <= i < a.len() implies a[i] == c.subrange(0, a.len() as int)[i] by {
            assert(a[i] == b.subrange(0, a.len() as int)[i]);
            assert(b[i] == c.subrange(0, b.len() as int)[i]);
        }
    }
}

proof fn lemma_prefix_refl<A>(s: Seq<A>)
    ensures
        s.is_prefix_of(s),
{
    assert(s =~= s.subrange(0, s.len() as int));
}

proof fn lemma_enqueue_extends(v: RegistryView, id: u64, f: FrameView)
    ensures
        queues_extend(v, v.enqueue(id, f)),
        forall|q: u64| #[trigger] v.enqueue(id, f).live(q) == v.live(q),
{
    let w = v.enqueue(id, f);
    assert forall|q: u64| v.live(q) && #[trigger] w.live(q) implies v.records[q].queue.is_prefix_of(w.records[q].queue) by {
        lemma_prefix_refl(v.records[q].queue);
        if q == id {
            lemma_prefix_push(v.records[q].queue, f);
        }
    }
}

proof fn lemma_broadcast_extends(v: RegistryView)
    ensures
        queues_extend(v, v.broadcast_roster()),
        forall|q: u64| #[trigger] v.broadcast_roster().live(q) == v.live(q),
{
    let w = v.broadcast_roster();
    assert forall|q: u64| v.live(q) && #[trigger] w.live(q) implies v.records[q].queue.is_prefix_of(w.records[q].queue) by {
        lemma_prefix_push(v.records[q].queue, roster_frame(v.roster));
    }
}

proof fn lemma_close_extends(v: RegistryView, id: u64)
    ensures
        queues_extend(v, v.close(id)),
        forall|q: u64| #[trigger] v.close(id).live(q) ==> v.live(q),
        v.live(id) ==> v.records[id].queue.is_prefix_of(v.closing_record(id).queue),
{
    if v.live(id) {
        let n = v.notify_peers(id);
        assert forall|q: u64| v.live(q) && #[trigger] n.live(q) implies v.records[q].queue.is_prefix_of(n.records[q].queue) by {
            lemma_prefix_refl(v.records[q].queue);
            lemma_prefix_push(v.records[q].queue, disconnect_notice(id, q));
        }
        let r = n.remove(id);
        lemma_broadcast_extends(r);
        let w = r.broadcast_roster();
        assert forall|q: u64| v.live(q) && #[trigger] w.live(q) implies v.records[q].queue.is_prefix_of(w.records[q].queue) by {
            assert(n.live(q) && r.live(q));
            lemma_prefix_trans(v.records[q].queue, n.records[q].queue, w.records[q].queue);
        }
        assert(n.live(id));
    }
}

proof fn lemma_route_extends(v: RegistryView, m: MessageView, raw: Seq<char>)
    ensures
        queues_extend(v, v.route(m, raw)),
        forall|q: u64| #[trigger] v.route(m, raw).live(q) == v.live(q),
{
    let d = match route_target(m) {
        Some(t) => v.enqueue(t, FrameView::Raw(raw)),
        None => v,
    };
    if let Some(t) = route_target(m) {
        lemma_enqueue_extends(v, t, FrameView::Raw(raw));
    } else {
        assert forall|q: u64| v.live(q) && #[trigger] d.live(q) implies v.records[q].queue.is_prefix_of(d.records[q].queue) by {
            lemma_prefix_refl(v.records[q].queue);
        }
    }
    let w = v.route(m, raw);
    assert forall|q: u64| v.live(q) && #[trigger] w.live(q) implies v.records[q].queue.is_prefix_of(w.records[q].queue) by {
        assert(d.live(q));
        assert(w.records[q].queue == d.records[q].queue);
    }
}

/// The state change of one event: queues of connections live before and
/// after only grow at their end, a connection live afterwards was live
/// before or is the one just issued, and the invariant is kept.
proof fn lemma_step(v: RegistryView, e: Event)
    requires
        v.wf(),
    ensures
        step(v, e).wf(),
        !(e is Take) ==> queues_extend(v, step(v, e)),
        step(v, e).next_id >= v.next_id,
        forall|q: u64| #[trigger] step(v, e).live(q) ==> v.live(q) || q >= v.next_id,
{
    let w = step(v, e);
    match e {
        Event::Connect { now } => {
            if v.next_id < u64::MAX {
                lemma_connect_wf(v, now);
                let r = RegistryView {
                    next_id: (v.next_id + 1) as u64,
                    roster: v.roster.push(v.next_id),
                    records: v.records.insert(v.next_id, RecordView::fresh(now, v.next_id)),
                };
                lemma_broadcast_extends(r);
                assert forall|q: u64| v.live(q) && #[trigger] w.live(q) implies v.records[q].queue.is_prefix_of(w.records[q].queue) by {
                    assert(q != v.next_id);
                    assert(r.live(q));
                }
            } else {
                assert forall|q: u64| v.live(q) && #[trigger] w.live(q) implies v.records[q].queue.is_prefix_of(w.records[q].queue) by {
                    lemma_prefix_refl(v.records[q].queue);
                }
            }
        },
        Event::Receive { id, now, m, raw } => {
            lemma_touch_wf(v, id, now);
            let t = v.touch(id, now);
            lemma_route_wf(t, m, raw);
            lemma_route_extends(t, m, raw);
            assert forall|q: u64| v.live(q) && #[trigger] w.live(q) implies v.records[q].queue.is_prefix_of(w.records[q].queue) by {
                assert(t.live(q));
                assert(t.records[q].queue == v.records[q].queue);
            }
        },
        Event::Activity { id, now } => {
            lemma_touch_wf(v, id, now);
            assert forall|q: u64| v.live(q) && #[trigger] w.live(q) implies v.records[q].queue.is_prefix_of(w.records[q].queue) by {
                lemma_prefix_refl(v.records[q].queue);
            }
        },
        Event::Heartbeat { id } => {
            lemma_enqueue_wf(v, id, FrameView::Ping);
            lemma_enqueue_extends(v, id, FrameView::Ping);
        },
        Event::IdleCheck { id, now } => {
            if v.live(id) && v.idle_expired(id, now) {
                lemma_evict_wf(v, id);
                let c = v.enqueue(id, FrameView::Close);
                lemma_enqueue_extends(v, id, FrameView::Close);
                lemma_close_extends(c, id);
                assert forall|q: u64| v.live(q) && #[trigger] w.live(q) implies v.records[q].queue.is_prefix_of(w.records[q].queue) by {
                    assert(c.live(q));
                    lemma_prefix_trans(v.records[q].queue, c.records[q].queue, w.records[q].queue);
                }
            } else {
                assert forall|q: u64| v.live(q) && #[trigger] w.live(q) implies v.records[q].queue.is_prefix_of(w.records[q].queue) by {
                    lemma_prefix_refl(v.records[q].queue);
                }
            }
        },
        Event::Close { id } => {
            lemma_close_wf(v, id);
            lemma_close_extends(v, id);
        },
        Event::Take { id } => {
            lemma_take_wf(v, id);
        },
    }
}

/// The frames that event `e` hands to the writer of `q`.
pub open spec fn handed(v: RegistryView, e: Event, q: u64) -> Seq<FrameView> {
    match e {
        Event::Take { id } => if id == q && v.live(q) { v.records[q].queue } else { Seq::empty() },
        _ => Seq::empty(),
    }
}

/// The frames that event `e` appends to the queue of `q`.
pub open spec fn appended(v: RegistryView, e: Event, q: u64) -> Seq<FrameView> {
    match e {
        Event::Take { .. } => Seq::empty(),
        _ => step(v, e).records[q].queue.subrange(
            v.records[q].queue.len() as int,
            step(v, e).records[q].queue.len() as int,
        ),
    }
}

/// The frames that the events `es` hand to the writer of `q`, in order.
pub open spec fn handed_all(v: RegistryView, es: Seq<Event>, q: u64) -> Seq<FrameView>
    decreases es.len(),
{
    if es.len() == 0 {
        Seq::empty()
    } else {
        handed(v, es[0], q) + handed_all(step(v, es[0]), es.drop_first(), q)
    }
}

/// The frames that the events `es` append to the queue of `q`, in order.
pub open spec fn appended_all(v: RegistryView, es: Seq<Event>, q: u64) -> Seq<FrameView>
    decreases es.len(),
{
    if es.len() == 0 {
        Seq::empty()
    } else {
        appended(v, es[0], q) + appended_all(step(v, es[0]), es.drop_first(), q)
    }
}

proof fn lemma_step_order(v: RegistryView, e: Event, q: u64)
    requires
        v.wf(),
        v.live(q),
        step(v, e).live(q),
    ensures
        handed(v, e, q) + step(v, e).records[q].queue == v.records[q].queue + appended(v, e, q),
{
    lemma_step(v, e);
    let w = step(v, e);
    if let Event::Take { id } = e {
        if id == q {
            assert(w.records[q].queue =~= Seq::<FrameView>::empty());
            assert(handed(v, e, q) + w.records[q].queue =~= v.records[q].queue + appended(v, e, q));
        } else {
            assert(handed(v, e, q) + w.records[q].queue =~= v.records[q].queue + appended(v, e, q));
        }
    } else {
        assert(v.records[q].queue.is_prefix_of(w.records[q].queue));
        assert(handed(v, e, q) + w.records[q].queue =~= v.records[q].queue + appended(v, e, q));
    }
}

/// An identity that was issued and is no longer live never becomes live again.
proof fn lemma_gone_stays_gone(v: RegistryView, es: Seq<Event>, q: u64)
    requires
        v.wf(),
        q < v.next_id,
        !v.live(q),
    ensures
        !run(v, es).live(q),
    decreases es.len(),
{
    if es.len() > 0 {
        lemma_step(v, es[0]);
        lemma_gone_stays_gone(step(v, es[0]), es.drop_first(), q);
    }
}

/// Every sequence of events keeps the registry invariant.
pub proof fn lemma_run_wf(v: RegistryView, es: Seq<Event>)
    requires
        v.wf(),
    ensures
        run(v, es).wf(),
    decreases es.len(),
{
    if es.len() > 0 {
        lemma_step(v, es[0]);
        lemma_run_wf(step(v, es[0]), es.drop_first());
    }
}

/// For a connection live before and after any sequence of events, the
/// frames handed to its writer, followed by those still queued, are the
/// frames it had queued followed by every frame enqueued to it, in the
/// order of enqueueing: its writer sees the frames of the router, the
/// timers and the roster broadcasts exactly in the order they were
/// enqueued, none lost, none reordered.
pub proof fn lemma_frames_in_enqueue_order(v: RegistryView, es: Seq<Event>, q: u64)
    requires
        v.wf(),
        v.live(q),
        run(v, es).live(q),
    ensures
        handed_all(v, es, q) + run(v, es).records[q].queue == v.records[q].queue + appended_all(v, es, q),
    decreases es.len(),
{
    if es.len() == 0 {
        assert(handed_all(v, es, q) + run(v, es).records[q].queue =~= v.records[q].queue + appended_all(v, es, q));
    } else {
        let e = es[0];
        let v1 = step(v, e);
        let rest = es.drop_first();
        lemma_step(v, e);
        if !v1.live(q) {
            assert(q < v1.next_id);
            lemma_gone_stays_gone(v1, rest, q);
        }
        lemma_step_order(v, e, q);
        lemma_frames_in_enqueue_order(v1, rest, q);
        let h = handed(v, e, q);
        let a = appended(v, e, q);
        let h1 = handed_all(v1, rest, q);
        let a1 = appended_all(v1, rest, q);
        let fin = run(v1, rest).records[q].queue;
        assert(h1 + fin == v1.records[q].queue + a1);
        assert(h + v1.records[q].queue == v.records[q].queue + a);
        assert((h + h1) + fin =~= h + (h1 + fin));
        assert(h + (v1.records[q].queue + a1) =~= (h + v1.records[q].queue) + a1);
        assert((v.records[q].queue + a) + a1 =~= v.records[q].queue + (a + a1));
    }
}

} // verus!
