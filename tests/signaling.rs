use decay_server::liveness::IdleVerdict;
use decay_server::message::{user_name_of, Frame, Message, User};
use decay_server::model::{HEARTBEAT_INTERVAL_MS, IDLE_CHECK_INTERVAL_MS, IDLE_TIMEOUT_MS};
use decay_server::registry::Registry;
use decay_server::router::target_of;

fn roster_of(frame: &Frame) -> Vec<u64> {
    match frame {
        Frame::Message(Message::UserList { users }) => users.iter().map(|u| u.id).collect(),
        other => panic!("expected a roster, got {:?}", other),
    }
}

fn offer(to_id: u64, text: &str) -> Message {
    Message::RTCOffer { to_id, offer: text.to_string() }
}

fn state_change(from_id: u64, to_id: u64, state: &str) -> Message {
    Message::PeerStateChange { from_id, to_id, state: state.to_string() }
}

/// A registry with `n` connections at time 0 whose queues have been emptied.
fn registry_with(n: u64) -> Registry {
    let mut r = Registry::new();
    for _ in 0..n {
        r.connect(0).unwrap();
    }
    for id in 1..=n {
        r.take_frames(id);
    }
    r
}

#[test]
fn ids_are_distinct_and_increasing() {
    let mut r = Registry::new();
    let ids: Vec<u64> = (0..50).map(|t| r.connect(t).unwrap()).collect();
    for w in ids.windows(2) {
        assert!(w[0] < w[1]);
    }
    assert_eq!(ids[0], 1);
    assert_eq!(ids[49], 50);
    assert_eq!(r.next_id(), 51);
}

#[test]
fn ids_are_not_reused_after_close() {
    let mut r = Registry::new();
    assert_eq!(r.connect(0), Some(1));
    assert_eq!(r.connect(0), Some(2));
    assert!(r.close(2).is_some());
    assert_eq!(r.connect(0), Some(3));
    assert_eq!(r.roster(), vec![1, 3]);
}

#[test]
fn connect_sends_welcome_then_roster() {
    let mut r = Registry::new();
    let id = r.connect(5).unwrap();
    let frames = r.take_frames(id);
    assert_eq!(frames.len(), 2);
    assert_eq!(frames[0], Frame::Message(Message::Welcome { user_id: 1 }));
    assert_eq!(
        frames[1],
        Frame::Message(Message::UserList { users: vec![User { id: 1, name: "User 1".to_string() }] })
    );
    assert_eq!(r.last_activity(id), Some(5));
}

#[test]
fn roster_is_broadcast_to_everyone_on_connect() {
    let mut r = registry_with(2);
    r.connect(0).unwrap();
    for id in 1..=2 {
        let frames = r.take_frames(id);
        assert_eq!(frames.len(), 1);
        assert_eq!(roster_of(&frames[0]), vec![1, 2, 3]);
    }
    let third = r.take_frames(3);
    assert_eq!(third.len(), 2);
    assert_eq!(roster_of(&third[1]), vec![1, 2, 3]);
}

#[test]
fn user_names_use_decimal_ids() {
    assert_eq!(user_name_of(0), "User 0");
    assert_eq!(user_name_of(7), "User 7");
    assert_eq!(user_name_of(10), "User 10");
    assert_eq!(user_name_of(4052), "User 4052");
    assert_eq!(user_name_of(u64::MAX), "User 18446744073709551615");
}

#[test]
fn single_connected_event_pairs_both_sides() {
    let mut r = registry_with(2);
    let m = state_change(1, 2, "connected");
    r.receive(1, 10, &m, "{\"type\":\"PeerStateChange\"}".to_string());
    assert_eq!(r.peers_of(1), Some(vec![2]));
    assert_eq!(r.peers_of(2), Some(vec![1]));
    // the raw frame goes to the target only
    assert_eq!(r.take_frames(2), vec![Frame::Raw("{\"type\":\"PeerStateChange\"}".to_string())]);
    assert!(r.take_frames(1).is_empty());
}

#[test]
fn connected_event_from_the_other_side_pairs_too() {
    let mut r = registry_with(2);
    r.receive(2, 10, &state_change(2, 1, "connected"), "x".to_string());
    assert_eq!(r.peers_of(1), Some(vec![2]));
    assert_eq!(r.peers_of(2), Some(vec![1]));
}

#[test]
fn disconnected_event_unpairs_and_other_states_do_nothing() {
    let mut r = registry_with(2);
    r.receive(1, 1, &state_change(1, 2, "connected"), "a".to_string());
    r.receive(1, 2, &state_change(1, 2, "connecting"), "b".to_string());
    assert_eq!(r.peers_of(1), Some(vec![2]));
    r.receive(2, 3, &state_change(2, 1, "disconnected"), "c".to_string());
    assert_eq!(r.peers_of(1), Some(vec![]));
    assert_eq!(r.peers_of(2), Some(vec![]));
    // every state change was relayed verbatim to its target
    assert_eq!(r.take_frames(2), vec![Frame::Raw("a".to_string()), Frame::Raw("b".to_string())]);
    assert_eq!(r.take_frames(1), vec![Frame::Raw("c".to_string())]);
}

#[test]
fn pairing_with_a_missing_peer_touches_only_the_live_side() {
    let mut r = registry_with(2);
    assert!(r.close(2).is_some());
    r.pair(1, 2);
    assert_eq!(r.peers_of(1), Some(vec![2]));
    // an identity never issued is not recorded
    r.pair(1, 999);
    assert_eq!(r.peers_of(1), Some(vec![2]));
    assert_eq!(r.peers_of(999), None);
}

#[test]
fn disconnect_fans_out_to_paired_peers() {
    let mut r = registry_with(3);
    r.pair(1, 2);
    r.pair(1, 3);
    let left = r.close(1).unwrap();
    assert!(left.is_empty());
    for peer in 2..=3 {
        let frames = r.take_frames(peer);
        assert_eq!(frames.len(), 2);
        assert_eq!(
            frames[0],
            Frame::Message(Message::PeerStateChange {
                from_id: 1,
                to_id: peer,
                state: "disconnected".to_string()
            })
        );
        assert_eq!(roster_of(&frames[1]), vec![2, 3]);
    }
    assert_eq!(r.roster(), vec![2, 3]);
    assert_eq!(r.close(1), None);
}

#[test]
fn unpaired_connections_get_only_the_roster_on_close() {
    let mut r = registry_with(3);
    r.pair(1, 2);
    r.close(1);
    let frames = r.take_frames(3);
    assert_eq!(frames.len(), 1);
    assert_eq!(roster_of(&frames[0]), vec![2, 3]);
}

#[test]
fn offer_is_delivered_verbatim_to_target_only() {
    let mut r = registry_with(7);
    let raw = "{\"type\":\"RTCOffer\",\"to_id\":5,\"offer\":\"x\"}".to_string();
    r.receive(7, 100, &offer(5, "x"), raw.clone());
    assert_eq!(r.take_frames(5), vec![Frame::Raw(raw)]);
    for id in [1, 2, 3, 4, 6, 7] {
        assert!(r.take_frames(id).is_empty());
    }
}

#[test]
fn answers_candidates_and_requests_follow_to_id() {
    let mut r = registry_with(3);
    r.route(&Message::RTCAnswer { to_id: 2, answer: "a".to_string() }, "a".to_string());
    r.route(&Message::RTCCandidate { to_id: 3, candidate: "c".to_string() }, "c".to_string());
    r.route(&Message::ConnectionRequest { to_id: 2 }, "q".to_string());
    r.route(&Message::ConnectionResponse { from_id: 1 }, "p".to_string());
    assert_eq!(r.take_frames(2), vec![Frame::Raw("a".to_string()), Frame::Raw("q".to_string())]);
    assert_eq!(r.take_frames(3), vec![Frame::Raw("c".to_string())]);
    assert_eq!(r.take_frames(1), vec![Frame::Raw("p".to_string())]);
}

#[test]
fn server_only_messages_are_dropped() {
    let mut r = registry_with(2);
    r.route(&Message::Welcome { user_id: 2 }, "w".to_string());
    r.route(&Message::UserList { users: vec![] }, "u".to_string());
    assert!(r.take_frames(1).is_empty());
    assert!(r.take_frames(2).is_empty());
    assert_eq!(target_of(&Message::Welcome { user_id: 2 }), None);
    assert_eq!(target_of(&Message::ConnectionResponse { from_id: 4 }), Some(4));
}

#[test]
fn offer_to_unknown_target_is_dropped() {
    let mut r = registry_with(2);
    r.receive(1, 0, &offer(999, "x"), "x".to_string());
    assert!(r.take_frames(1).is_empty());
    assert!(r.take_frames(2).is_empty());
    assert_eq!(r.roster(), vec![1, 2]);
}

#[test]
fn receive_records_activity() {
    let mut r = registry_with(2);
    r.receive(1, 1234, &offer(2, "x"), "x".to_string());
    assert_eq!(r.last_activity(1), Some(1234));
    assert_eq!(r.last_activity(2), Some(0));
    r.touch(2, 99);
    assert_eq!(r.last_activity(2), Some(99));
    r.touch(42, 99);
    assert_eq!(r.last_activity(42), None);
}

#[test]
fn heartbeat_enqueues_ping_while_live() {
    let mut r = registry_with(1);
    assert!(r.heartbeat(1));
    assert_eq!(r.take_frames(1), vec![Frame::Ping]);
    assert_eq!(r.last_activity(1), Some(0));
    r.close(1);
    assert!(!r.heartbeat(1));
}

#[test]
fn idle_connection_is_evicted_and_peers_notified() {
    let mut r = registry_with(2);
    r.pair(1, 2);
    let mut t = 0;
    // pings are never answered; checks run every interval
    loop {
        t += IDLE_CHECK_INTERVAL_MS;
        assert!(r.heartbeat(1));
        match r.idle_check(1, t) {
            IdleVerdict::Active => assert!(t <= IDLE_TIMEOUT_MS),
            IdleVerdict::Evicted(frames) => {
                assert!(t > IDLE_TIMEOUT_MS);
                assert!(t <= IDLE_TIMEOUT_MS + IDLE_CHECK_INTERVAL_MS);
                assert_eq!(frames.last(), Some(&Frame::Close));
                break;
            }
            IdleVerdict::Gone => panic!("connection vanished"),
        }
        r.touch(2, t);
    }
    assert_eq!(r.roster(), vec![2]);
    let frames = r.take_frames(2);
    assert_eq!(
        frames,
        vec![
            Frame::Message(Message::PeerStateChange {
                from_id: 1,
                to_id: 2,
                state: "disconnected".to_string()
            }),
            Frame::Message(Message::UserList { users: vec![User { id: 2, name: "User 2".to_string() }] }),
        ]
    );
    assert!(matches!(r.idle_check(1, t + IDLE_CHECK_INTERVAL_MS), IdleVerdict::Gone));
}

#[test]
fn idle_check_keeps_active_connection() {
    let mut r = registry_with(1);
    r.touch(1, 50_000);
    assert!(matches!(r.idle_check(1, 50_000 + IDLE_TIMEOUT_MS), IdleVerdict::Active));
    assert!(matches!(r.idle_check(1, 50_000 + IDLE_TIMEOUT_MS + 1), IdleVerdict::Evicted(_)));
}

#[test]
fn idle_check_ignores_clock_before_last_activity() {
    let mut r = registry_with(1);
    r.touch(1, 100_000);
    assert!(matches!(r.idle_check(1, 10), IdleVerdict::Active));
}

#[test]
fn frames_reach_writer_in_enqueue_order() {
    let mut r = registry_with(3);
    // interleave router, timer and broadcast events that target connection 2
    r.receive(1, 1, &offer(2, "o1"), "o1".to_string());
    assert!(r.heartbeat(2));
    r.receive(3, 2, &Message::RTCCandidate { to_id: 2, candidate: "c1".to_string() }, "c1".to_string());
    let first = r.take_frames(2);
    r.connect(3).unwrap();
    r.receive(1, 4, &offer(2, "o2"), "o2".to_string());
    assert!(r.heartbeat(2));
    r.close(3);
    let second = r.take_frames(2);
    assert_eq!(first, vec![Frame::Raw("o1".to_string()), Frame::Ping, Frame::Raw("c1".to_string())]);
    assert_eq!(second.len(), 4);
    assert_eq!(roster_of(&second[0]), vec![1, 2, 3, 4]);
    assert_eq!(second[1], Frame::Raw("o2".to_string()));
    assert_eq!(second[2], Frame::Ping);
    assert_eq!(roster_of(&second[3]), vec![1, 2, 4]);
}

#[test]
fn close_returns_pending_frames() {
    let mut r = registry_with(2);
    r.route(&offer(1, "late"), "late".to_string());
    assert_eq!(r.close(1), Some(vec![Frame::Raw("late".to_string())]));
    assert_eq!(r.close(1), None);
}

#[test]
fn self_pairing_notifies_into_closing_queue() {
    let mut r = registry_with(1);
    r.pair(1, 1);
    let left = r.close(1).unwrap();
    assert_eq!(left.len(), 1);
    assert!(r.roster().is_empty());
}

#[test]
fn timing_constants() {
    assert_eq!(HEARTBEAT_INTERVAL_MS, 30_000);
    assert_eq!(IDLE_TIMEOUT_MS, 60_000);
    assert_eq!(IDLE_CHECK_INTERVAL_MS, 30_000);
}
