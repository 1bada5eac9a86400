//! Tests of the replication mesh model: clock skew, handshake, duplicate
//! sessions, membership, the coalescing queue and the peer listing.

use limitador::crdt::CrCounterValue;
use limitador::replication::{
    apply_membership_update, handshake_register, is_disconnect, peers, process_packet, read_hello,
    read_pong, ClockSkew, CounterEntry, CounterUpdate, HandshakeOutcome, Hello, InboundAction,
    IoKind, Message, Packet, Peer, PendingUpdates, Pong, ReplicationState, SessionError,
    StreamEvent, StreamFailure,
};

fn empty_state() -> ReplicationState {
    ReplicationState { discovered_urls: vec![], peer_trackers: vec![] }
}

fn hello(id: &str, urls: Vec<&str>, receiver: Option<&str>) -> Hello {
    Hello {
        sender_peer_id: id.to_string(),
        sender_urls: urls.into_iter().map(|u| u.to_string()).collect(),
        receiver_url: receiver.map(|u| u.to_string()),
    }
}

#[test]
fn clock_skew_classifies_and_maps_instants() {
    assert_eq!(ClockSkew::new(1000, 1000), ClockSkew::InSync);
    assert_eq!(ClockSkew::new(1500, 1000), ClockSkew::Slow(500));
    assert_eq!(ClockSkew::new(1000, 1500), ClockSkew::Fast(500));
    assert_eq!(ClockSkew::Slow(500).remote(2000), 1500);
    assert_eq!(ClockSkew::Fast(500).remote(2000), 2500);
    assert_eq!(ClockSkew::InSync.remote(2000), 2000);
    assert!(ClockSkew::InSync.remote_now().is_some());
    assert_eq!(ClockSkew::InSync.describe(), "remote time is the same");
}

#[test]
fn handshake_reads_expect_their_message() {
    let h = read_hello(StreamEvent::Received(Packet {
        message: Some(Message::Hello(hello("p1", vec!["u1"], None))),
    }));
    assert_eq!(h.unwrap().sender_peer_id, "p1");

    let bad = read_hello(StreamEvent::Received(Packet { message: Some(Message::Ping) }));
    assert_eq!(bad.unwrap_err(), SessionError::InvalidArgument);
    assert_eq!(read_hello(StreamEvent::Closed).unwrap_err(), SessionError::InvalidArgument);

    let g = read_pong(StreamEvent::Received(Packet {
        message: Some(Message::Pong(Pong { current_time: 42 })),
    }));
    assert_eq!(g.unwrap().current_time, 42);
    assert!(read_pong(StreamEvent::Received(Packet { message: None })).is_err());
}

#[test]
fn broken_pipe_is_a_silent_disconnect() {
    assert!(is_disconnect(&StreamFailure { io_kind: Some(IoKind::BrokenPipe) }));
    assert!(!is_disconnect(&StreamFailure { io_kind: Some(IoKind::OtherIo) }));
    assert!(!is_disconnect(&StreamFailure { io_kind: None }));
}

#[test]
fn handshake_registers_a_new_peer() {
    let mut state = empty_state();
    let out = handshake_register(
        &mut state,
        &"me".to_string(),
        &hello("peer1", vec!["http://p1", "http://p1"], Some("http://me")),
        5_000,
        1_000,
        1_200,
        7,
        &Some("http://p1".to_string()),
    );
    assert_eq!(out, HandshakeOutcome::Established { close_old: None });
    // The URL the peer reached us on was discovered.
    assert_eq!(state.discovered_urls, vec!["http://me".to_string()]);
    assert_eq!(state.peer_trackers.len(), 1);
    let t = &state.peer_trackers[0];
    assert_eq!(t.peer_id, "peer1");
    assert_eq!(t.session, Some(7));
    assert_eq!(t.latency, 200);
    // Announced URLs were kept once each.
    assert_eq!(t.discovered_urls, vec!["http://p1".to_string()]);
    assert_eq!(t.url, Some("http://p1".to_string()));
    // end = 1200; peer time adjusted = 5000 + 100 -> the peer runs fast.
    assert_eq!(t.clock_skew, ClockSkew::Fast(3900));
}

#[test]
fn duplicate_session_race_is_deterministic() {
    // "alpha" < "me": the new session wins and the old one is closed.
    let mut state = empty_state();
    handshake_register(
        &mut state, &"me".to_string(), &hello("alpha", vec![], None), 0, 0, 0, 1, &None,
    );
    let out = handshake_register(
        &mut state, &"me".to_string(), &hello("alpha", vec![], None), 0, 0, 0, 2, &None,
    );
    assert_eq!(out, HandshakeOutcome::Established { close_old: Some(1) });
    assert_eq!(state.peer_trackers[0].session, Some(2));

    // "zulu" > "me": the old session stays and the new one is dropped.
    let mut state = empty_state();
    handshake_register(
        &mut state, &"me".to_string(), &hello("zulu", vec![], None), 0, 0, 0, 1, &None,
    );
    let out = handshake_register(
        &mut state, &"me".to_string(), &hello("zulu", vec![], None), 0, 0, 0, 2, &None,
    );
    assert_eq!(out, HandshakeOutcome::DroppedDuplicate);
    assert_eq!(state.peer_trackers[0].session, Some(1));
}

#[test]
fn membership_update_adds_but_never_deletes() {
    let mut state = empty_state();
    handshake_register(
        &mut state, &"me".to_string(), &hello("known", vec!["http://k"], None), 0, 0, 0, 9, &None,
    );

    let update = vec![
        Peer { peer_id: "known".to_string(), latency: 3, urls: vec!["http://other".to_string()] },
        Peer { peer_id: "fresh".to_string(), latency: 0, urls: vec![] },
    ];
    let action = process_packet(
        &mut state,
        Packet { message: Some(Message::MembershipUpdate(update)) },
    );
    assert!(matches!(action, Ok(InboundAction::UpdatedMembership)));

    // The known peer was left exactly as it was; the fresh one was added
    // without a session; nobody was deleted.
    assert_eq!(state.peer_trackers.len(), 2);
    assert_eq!(state.peer_trackers[0].peer_id, "known");
    assert_eq!(state.peer_trackers[0].session, Some(9));
    assert_eq!(state.peer_trackers[0].discovered_urls, vec!["http://k".to_string()]);
    assert_eq!(state.peer_trackers[1].peer_id, "fresh");
    assert_eq!(state.peer_trackers[1].session, None);
    assert_eq!(state.peer_trackers[1].latency, 0);
}

#[test]
fn inbound_dispatch_follows_the_protocol() {
    let mut state = empty_state();
    let pong = process_packet(&mut state, Packet { message: Some(Message::Ping) });
    assert!(matches!(pong, Ok(InboundAction::SendPong)));

    let update = CounterUpdate {
        key: vec![1, 2],
        values: vec![("a".to_string(), 3)],
        expires_at: 100,
    };
    let apply = process_packet(&mut state, Packet { message: Some(Message::CounterUpdate(update)) });
    match apply {
        Ok(InboundAction::ApplyUpdate(u)) => assert_eq!(u.key, vec![1, 2]),
        _ => panic!("expected the update back"),
    }

    let bad = process_packet(&mut state, Packet { message: Some(Message::ReSyncEnd) });
    assert_eq!(bad.unwrap_err(), SessionError::InvalidArgument);
    let empty = process_packet(&mut state, Packet { message: None });
    assert_eq!(empty.unwrap_err(), SessionError::InvalidArgument);
}

#[test]
fn pending_updates_coalesce_by_key_keeping_order() {
    let mut q = PendingUpdates::new();
    let upd = |key: u8, exp: u64| CounterUpdate {
        key: vec![key],
        values: vec![("a".to_string(), 1)],
        expires_at: exp,
    };
    q.push(upd(1, 10));
    q.push(upd(2, 20));
    q.push(upd(1, 30));  // same key: replaced in place, keeps its turn
    assert_eq!(q.len(), 2);
    let first = q.pop_front().unwrap();
    assert_eq!(first.key, vec![1]);
    assert_eq!(first.expires_at, 30);
    let second = q.pop_front().unwrap();
    assert_eq!(second.key, vec![2]);
    assert!(q.pop_front().is_none());

    assert!(upd(1, 10).is_live(5));
    assert!(!upd(1, 10).is_live(10));
}

#[test]
fn reconnect_tries_configured_then_discovered_urls() {
    let mut state = empty_state();
    handshake_register(
        &mut state,
        &"me".to_string(),
        &hello("gone", vec!["http://d1", "http://d2"], None),
        0,
        0,
        0,
        1,
        &Some("http://configured".to_string()),
    );
    handshake_register(
        &mut state, &"me".to_string(), &hello("live", vec![], None), 0, 0, 0, 2, &None,
    );
    // "gone" lost its session; "live" kept it.
    state.peer_trackers[0].session = None;

    let targets = limitador::replication::reconnect_candidates(&state);
    assert_eq!(targets.len(), 1);
    assert_eq!(
        targets[0],
        vec![
            "http://configured".to_string(),
            "http://d1".to_string(),
            "http://d2".to_string(),
        ],
    );
}

#[test]
fn peers_are_listed_sorted_by_id() {
    let mut state = empty_state();
    for id in ["zulu", "alpha", "mike"] {
        handshake_register(
            &mut state, &"me".to_string(), &hello(id, vec![], None), 0, 0, 0, 1, &None,
        );
    }
    let listed = peers(&state);
    let ids: Vec<&str> = listed.iter().map(|p| p.peer_id.as_str()).collect();
    assert_eq!(ids, vec!["alpha", "mike", "zulu"]);
}

#[test]
fn replication_converges_to_the_sum() {
    // Two replicas each increment the same counter key locally, then
    // resync: both end at the sum of the two contributions.
    let mut on_a = CrCounterValue::new(60, 160);
    on_a.increment(&"replica-a".to_string(), 3, 100);
    let mut on_b = CrCounterValue::new(60, 160);
    on_b.increment(&"replica-b".to_string(), 5, 100);

    // A sends its snapshot to B and vice versa.
    let (exp_a, contribs_a) = on_a.snapshot();
    let (exp_b, contribs_b) = on_b.snapshot();
    let from_a = CrCounterValue { expires_at: exp_a, initial_duration: 60, contributions: contribs_a };
    let from_b = CrCounterValue { expires_at: exp_b, initial_duration: 60, contributions: contribs_b };

    on_a.merge(&from_b);
    on_b.merge(&from_a);
    assert_eq!(on_a.value(), 8);
    assert_eq!(on_b.value(), 8);
}

#[test]
fn counter_entry_bundles_its_parts() {
    let counter = limitador::limit::Counter {
        limit: limitador::limit::Limit::new("ns".to_string(), 1, 60, vec![], vec![]),
        assignment: vec![],
    };
    let key = limitador::limit::counter_key(&counter);
    let entry = CounterEntry::new(key.clone(), counter, CrCounterValue::new(60, 160));
    assert_eq!(entry.key, key);
    assert_eq!(entry.value.expires_at, 160);
}
