use haunted_server::server::{Peer, ServerState, TaggedState};

fn server_with_peer(id: u64) -> ServerState {
    let mut server = ServerState::new(None, None);
    assert!(server.register_peer(Peer::new(id, "127.0.0.1:1234".to_string(), 1000 + id)));
    server
}

#[test]
fn test_get_or_create_session() {
    let mut server = ServerState::new(None, None);
    let session_id: String = "abc".into();
    server.get_or_create_session(&session_id);

    assert_eq!(server.session_count(), 1);
    assert!(server.session(&session_id).is_some());
    assert_eq!(server.session(&session_id).unwrap().id(), "abc");

    server.get_or_create_session(&session_id);
    assert_eq!(server.session_count(), 1);
    assert!(server.session(&session_id).is_some());
    assert_eq!(server.session(&session_id).unwrap().id(), "abc");
}

#[test]
fn test_join_peer_to_session() {
    let peer_id = 123u64;
    let mut server = server_with_peer(peer_id);
    let session_id: String = "abc".into();
    server.get_or_create_session(&session_id);
    assert!(server.join_peer_to_session(peer_id, &session_id).is_ok());

    assert_eq!(server.session_count(), 1);
    assert!(server.session(&session_id).is_some());
    let session = server.session(&session_id).unwrap();
    assert_eq!(session.id(), "abc");
    assert_eq!(session.peers().len(), 1);
    assert_eq!(session.peers()[0], peer_id);
    let link = server.peer(peer_id).unwrap().session.as_ref().unwrap();
    assert_eq!(link.id, "abc");
    assert_eq!(link.generation, session.generation());
}

#[test]
fn test_drop_peer() {
    let peer_id = 123u64;
    let mut server = server_with_peer(peer_id);
    let session_id: String = "abc".into();
    server.get_or_create_session(&session_id);
    assert!(server.join_peer_to_session(peer_id, &session_id).is_ok());
    server.drop_peer(peer_id);

    assert_eq!(server.session_count(), 0);
}

#[test]
fn test_drop_by_username() {
    let mut server = server_with_peer(123);
    server.set_username(123, "username".into());
    let session_id: String = "abc".into();
    server.get_or_create_session(&session_id);
    assert!(server.join_peer_to_session(123, &session_id).is_ok());

    server.drop_peers_by_username(&"username".into());

    assert_eq!(server.session_count(), 0);
    let peer = server.peer(123).unwrap();
    assert!(peer.terminate);
    assert!(peer.session.is_none());
}

#[test]
fn join_twice_is_refused_with_message() {
    let mut server = server_with_peer(7);
    server.get_or_create_session("s1");
    server.get_or_create_session("s2");
    assert!(server.join_peer_to_session(7, "s1").is_ok());
    let err = server.join_peer_to_session(7, "s2").err().unwrap();
    assert_eq!(
        err.message,
        "peer 127.0.0.1:1234(#7) is already associated with session `s2`(size 0)"
    );
    assert_eq!(server.session("s2").unwrap().peers().len(), 0);
}

#[test]
fn drop_keeps_nonempty_session_and_forgets_dirty() {
    let mut server = ServerState::new(None, None);
    assert!(server.register_peer(Peer::new(1, "a".into(), 11)));
    assert!(server.register_peer(Peer::new(2, "b".into(), 12)));
    server.get_or_create_session("s");
    server.join_peer_to_session(1, "s").unwrap();
    server.join_peer_to_session(2, "s").unwrap();
    assert!(server.set_peer_state(1, TaggedState { tag: "t".into(), data: vec![1, 2] }));
    assert_eq!(server.peer(2).unwrap().state_dirty, vec![1]);
    server.drop_peer(1);
    assert_eq!(server.session_count(), 1);
    assert_eq!(server.session("s").unwrap().peers().as_slice(), &[2]);
    assert!(server.peer(2).unwrap().state_dirty.is_empty());
    // A session that still exists keeps the dropped peer associated.
    assert_eq!(server.peer(1).unwrap().session.as_ref().map(|l| l.id.as_str()), Some("s"));
}

#[test]
fn set_peer_state_marks_other_members_dirty() {
    let mut server = ServerState::new(None, None);
    for id in 1..=3u64 {
        assert!(server.register_peer(Peer::new(id, format!("p{id}"), id * 10)));
    }
    server.get_or_create_session("s");
    server.join_peer_to_session(1, "s").unwrap();
    server.join_peer_to_session(2, "s").unwrap();
    assert!(server.set_peer_state(2, TaggedState { tag: "x".into(), data: vec![9] }));
    assert_eq!(server.peer(1).unwrap().state_dirty, vec![2]);
    assert!(server.peer(2).unwrap().state_dirty.is_empty());
    assert!(server.peer(3).unwrap().state_dirty.is_empty());
    let st = server.peer(2).unwrap().state.as_ref().unwrap();
    assert_eq!(st.tag, "x");
    assert_eq!(st.data, vec![9]);
    // Marking twice keeps one entry.
    assert!(server.set_peer_state(2, TaggedState { tag: "x".into(), data: vec![8] }));
    assert_eq!(server.peer(1).unwrap().state_dirty, vec![2]);
}

#[test]
fn set_peer_state_limits() {
    let mut server = server_with_peer(5);
    // Too large: refused.
    assert!(!server.set_peer_state(5, TaggedState { tag: String::new(), data: vec![0; 5001] }));
    // No session yet: accepted but not stored.
    assert!(server.set_peer_state(5, TaggedState { tag: String::new(), data: vec![0; 5000] }));
    assert!(server.peer(5).unwrap().state.is_none());
}

#[test]
fn out_of_date_peers() {
    let mut server = ServerState::new(None, None);
    for id in 1..=3u64 {
        assert!(server.register_peer(Peer::new(id, "addr".into(), id)));
    }
    let err = server.get_out_of_date_peers(1, true).err().unwrap();
    assert_eq!(err.message, "addr(#1) has no associated session");
    server.get_or_create_session("s");
    for id in 1..=3u64 {
        server.join_peer_to_session(id, "s").unwrap();
    }
    assert_eq!(server.get_out_of_date_peers(2, true).ok().unwrap(), vec![1, 3]);
    assert!(server.get_out_of_date_peers(2, false).ok().unwrap().is_empty());
    server.set_peer_state(3, TaggedState { tag: String::new(), data: vec![] });
    assert_eq!(server.get_out_of_date_peers(2, false).ok().unwrap(), vec![3]);
    server.clear_dirty(2);
    assert!(server.get_out_of_date_peers(2, false).ok().unwrap().is_empty());
}

#[test]
fn disconnect_forgets_peer() {
    let mut server = server_with_peer(9);
    server.get_or_create_session("s");
    server.join_peer_to_session(9, "s").unwrap();
    server.disconnect_peer(9);
    assert!(!server.has_peer(9));
    assert_eq!(server.session_count(), 0);
}

#[test]
fn peer_ids_count_up_and_register_refuses_duplicates() {
    let mut server = ServerState::new(None, None);
    assert_eq!(server.next_peer_id(), 0);
    assert_eq!(server.next_peer_id(), 1);
    assert!(server.register_peer(Peer::new(1, "x".into(), 0)));
    assert!(!server.register_peer(Peer::new(1, "y".into(), 0)));
    assert_eq!(server.peer(1).unwrap().addr, "x");
}

#[test]
fn describe_peer_and_session() {
    let mut server = server_with_peer(42);
    assert_eq!(server.peer(42).unwrap().describe(), "127.0.0.1:1234(#42)");
    server.set_username(42, "bob".into());
    assert_eq!(server.peer(42).unwrap().describe(), "127.0.0.1:1234(#42 `bob`)");
    server.get_or_create_session("room/1");
    server.join_peer_to_session(42, "room/1").unwrap();
    assert_eq!(server.session("room/1").unwrap().describe(), "`room/1`(size 1)");
}

#[test]
fn drop_by_username_only_named_members() {
    let mut server = ServerState::new(None, None);
    for id in 1..=3u64 {
        assert!(server.register_peer(Peer::new(id, "a".into(), id)));
    }
    server.set_username(1, "ann".into());
    server.set_username(2, "bob".into());
    server.set_username(3, "ann".into());
    server.get_or_create_session("s");
    server.get_or_create_session("t");
    server.join_peer_to_session(1, "s").unwrap();
    server.join_peer_to_session(2, "s").unwrap();
    server.join_peer_to_session(3, "t").unwrap();
    server.drop_peers_by_username(&"ann".to_string());
    assert_eq!(server.session_count(), 1);
    assert_eq!(server.session("s").unwrap().peers().as_slice(), &[2]);
    assert!(server.peer(1).unwrap().terminate && server.peer(3).unwrap().terminate);
    assert!(!server.peer(2).unwrap().terminate);
}

#[test]
fn peers_are_equal_by_id() {
    assert!(Peer::new(1, "a".into(), 0) == Peer::new(1, "b".into(), 5));
    assert!(Peer::new(1, "a".into(), 0) != Peer::new(2, "a".into(), 0));
}

#[test]
fn peer_clear_dirty_and_out_of_date_through_peer() {
    let mut server = ServerState::new(None, None);
    for id in 1..=2u64 {
        assert!(server.register_peer(Peer::new(id, "h".into(), id)));
    }
    server.get_or_create_session("s");
    server.join_peer_to_session(1, "s").unwrap();
    server.join_peer_to_session(2, "s").unwrap();
    server.set_peer_state(2, TaggedState { tag: "t".into(), data: vec![1] });
    let peer = server.peer(1).unwrap();
    assert_eq!(peer.get_out_of_date_peers(&server, false).ok().unwrap(), vec![2]);
    assert_eq!(peer.get_out_of_date_peers(&server, true).ok().unwrap(), vec![2]);
    let mut copy = Peer::new(1, "h".into(), 1);
    copy.state_dirty = vec![2, 3];
    copy.clear_dirty();
    assert!(copy.state_dirty.is_empty());
}

#[test]
fn sessions_created_again_get_new_generations() {
    let mut server = server_with_peer(1);
    assert_eq!(server.session_counter(), 0);
    server.get_or_create_session("abc");
    assert_eq!(server.session("abc").unwrap().generation(), 0);
    server.get_or_create_session("abc");
    assert_eq!(server.session_counter(), 1);
    server.join_peer_to_session(1, "abc").unwrap();
    server.drop_peer(1);
    assert_eq!(server.session_count(), 0);
    server.get_or_create_session("abc");
    assert_eq!(server.session("abc").unwrap().generation(), 1);
    assert_eq!(server.session_counter(), 2);
}

#[test]
fn rejoin_after_purge_is_accepted() {
    let mut server = server_with_peer(1);
    server.get_or_create_session("abc");
    server.join_peer_to_session(1, "abc").unwrap();
    server.drop_peer(1);
    server.get_or_create_session("abc");
    assert!(!server.has_live_session(1));
    assert!(server.join_peer_to_session(1, "abc").is_ok());
    assert!(server.has_live_session(1));
    assert_eq!(server.session("abc").unwrap().peers().as_slice(), &[1]);
    assert_eq!(server.peer(1).unwrap().session.as_ref().unwrap().generation, 1);
}

#[test]
fn drop_after_purge_leaves_recreated_session() {
    let mut server = server_with_peer(1);
    server.get_or_create_session("abc");
    server.join_peer_to_session(1, "abc").unwrap();
    server.drop_peer(1);
    server.get_or_create_session("abc");
    server.drop_peer(1);
    assert_eq!(server.session_count(), 1);
    assert!(server.session("abc").unwrap().peers().is_empty());
}

#[test]
fn out_of_date_peers_after_purge_fails() {
    let mut server = server_with_peer(1);
    server.get_or_create_session("abc");
    server.join_peer_to_session(1, "abc").unwrap();
    server.drop_peer(1);
    server.get_or_create_session("abc");
    for all in [false, true] {
        let err = server.get_out_of_date_peers(1, all).err().unwrap();
        assert_eq!(err.message, "127.0.0.1:1234(#1) has no associated session");
    }
}

#[test]
fn publish_after_purge_marks_nobody() {
    let mut server = ServerState::new(None, None);
    assert!(server.register_peer(Peer::new(1, "a".into(), 11)));
    assert!(server.register_peer(Peer::new(2, "b".into(), 12)));
    server.get_or_create_session("s");
    server.join_peer_to_session(1, "s").unwrap();
    server.drop_peer(1);
    server.get_or_create_session("s");
    server.join_peer_to_session(2, "s").unwrap();
    assert!(server.set_peer_state(1, TaggedState { tag: "t".into(), data: vec![1] }));
    assert!(server.peer(1).unwrap().state.is_none());
    assert!(server.peer(2).unwrap().state_dirty.is_empty());
}
