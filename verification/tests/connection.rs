use haunted_server::codec::{ClientMessage, ServerMessage};
use haunted_server::connection::{Connection, Step};
use haunted_server::server::{Peer, ServerState};

fn connect(server: &mut ServerState, addr: &str) -> Connection {
    let id = server.next_peer_id();
    assert!(server.register_peer(Peer::new(id, addr.to_string(), 100 + id)));
    Connection::new(id)
}

fn login(c: &Connection, server: &mut ServerState, user: &str, session: &str) -> Step {
    c.handle_message(
        server,
        ClientMessage::Login {
            username: user.into(),
            auth_token: "token".into(),
            session_id: session.into(),
        },
    )
}

fn update(c: &Connection, server: &mut ServerState, tag: &str, data: Vec<u8>) -> Step {
    c.handle_message(server, ClientMessage::UpdateState { tag: tag.into(), data })
}

#[test]
fn login_without_manager_joins_and_answers_server_info() {
    let mut server = ServerState::new(None, None);
    let a = connect(&mut server, "a");
    assert!(matches!(login(&a, &mut server, "ann", "s"), Step::Send(ServerMessage::ServerInfo {})));
    assert_eq!(server.session("s").unwrap().peers().as_slice(), &[a.peer_id]);
    assert_eq!(server.peer(a.peer_id).unwrap().username.as_deref(), Some("ann"));
}

#[test]
fn login_with_manager_asks_permission() {
    let mut server = ServerState::new(Some("http://m".into()), Some("key".into()));
    let a = connect(&mut server, "a");
    match login(&a, &mut server, "ann", "room/7") {
        Step::CheckPermission { manager_url, request, session_id } => {
            assert_eq!(manager_url, "http://m");
            assert_eq!(request.api_key, "key");
            assert_eq!(request.auth_token, "token");
            assert_eq!(request.session_id, "room");
            assert_eq!(request.username, "ann");
            assert_eq!(session_id, "room/7");
        }
        _ => panic!("expected a permission check"),
    }
    assert_eq!(server.session_count(), 0);
    match a.finish_login(&mut server, "room/7", false) {
        Step::SendThenClose(ServerMessage::Failure { message }, e) => {
            assert_eq!(message, "authentication failed");
            assert_eq!(e.message, "invalid user credentials");
        }
        _ => panic!("expected a refusal"),
    }
    assert!(matches!(
        a.finish_login(&mut server, "room/7", true),
        Step::Send(ServerMessage::ServerInfo {})
    ));
    assert_eq!(server.session_count(), 1);
}

#[test]
fn states_are_delivered_to_session_peers() {
    let mut server = ServerState::new(None, None);
    let a = connect(&mut server, "a");
    let b = connect(&mut server, "b");
    login(&a, &mut server, "ann", "s");
    assert!(matches!(update(&a, &mut server, "pos", vec![1, 2]), Step::Continue));
    login(&b, &mut server, "bob", "s");
    // b joined after a published: its first delivery holds a's state.
    match b.tick(&mut server) {
        Step::Send(ServerMessage::UpdateState { states }) => {
            assert_eq!(states.len(), 1);
            assert_eq!(states[0].0, 100 + a.peer_id);
            assert_eq!(states[0].1.data, vec![1, 2]);
        }
        _ => panic!("expected an update"),
    }
    // Nothing new afterwards.
    match b.tick(&mut server) {
        Step::Send(ServerMessage::UpdateState { states }) => assert!(states.is_empty()),
        _ => panic!("expected an empty update"),
    }
    // a published again: b receives it, a does not receive its own.
    update(&a, &mut server, "pos", vec![3]);
    match b.tick(&mut server) {
        Step::Send(ServerMessage::UpdateState { states }) => {
            assert_eq!(states.len(), 1);
            assert_eq!(states[0].1.data, vec![3]);
        }
        _ => panic!("expected an update"),
    }
    match a.tick(&mut server) {
        Step::Send(ServerMessage::UpdateState { states }) => assert!(states.is_empty()),
        _ => panic!("expected an empty update"),
    }
}

#[test]
fn state_query_delivers_matching_tags() {
    let mut server = ServerState::new(None, None);
    let a = connect(&mut server, "a");
    let b = connect(&mut server, "b");
    let c = connect(&mut server, "c");
    for (conn, name) in [(&a, "ann"), (&b, "bob"), (&c, "cid")] {
        login(conn, &mut server, name, "s");
    }
    update(&b, &mut server, "x", vec![1]);
    update(&c, &mut server, "y", vec![2]);
    assert!(matches!(
        a.handle_message(&mut server, ClientMessage::StateQuery { tag: "y".into() }),
        Step::Continue
    ));
    match a.tick(&mut server) {
        Step::Send(ServerMessage::FullSync { states }) => {
            assert_eq!(states.len(), 1);
            assert_eq!(states[0].0, 100 + c.peer_id);
            assert_eq!(states[0].1.tag, "y");
        }
        _ => panic!("expected a full sync"),
    }
    assert!(server.peer(a.peer_id).unwrap().full_delivery.is_none());
}

#[test]
fn oversized_update_is_answered_with_failure() {
    let mut server = ServerState::new(None, None);
    let a = connect(&mut server, "a");
    login(&a, &mut server, "ann", "s");
    match update(&a, &mut server, "t", vec![0; 5001]) {
        Step::Send(ServerMessage::Failure { message }) => {
            assert_eq!(message, "failed to process state update")
        }
        _ => panic!("expected a failure"),
    }
}

#[test]
fn client_failure_closes() {
    let mut server = ServerState::new(None, None);
    let a = connect(&mut server, "1.2.3.4:5");
    match a.handle_message(&mut server, ClientMessage::Failure { message: "bad".into() }) {
        Step::Close(e) => assert_eq!(e.message, "1.2.3.4:5(#0) sent unexpected failure: `bad`"),
        _ => panic!("expected close"),
    }
}

#[test]
fn second_login_with_same_name_terminates_first() {
    let mut server = ServerState::new(None, None);
    let a = connect(&mut server, "a");
    let b = connect(&mut server, "b");
    login(&a, &mut server, "ann", "s");
    login(&b, &mut server, "ann", "s");
    assert!(matches!(a.tick(&mut server), Step::Stop));
    assert_eq!(server.session("s").unwrap().peers().as_slice(), &[b.peer_id]);
    a.disconnect(&mut server);
    assert!(!server.has_peer(a.peer_id));
    assert_eq!(server.session("s").unwrap().peers().as_slice(), &[b.peer_id]);
}

#[test]
fn tick_without_session_sends_nothing() {
    let mut server = ServerState::new(None, None);
    let a = connect(&mut server, "a");
    assert!(matches!(a.tick(&mut server), Step::Continue));
}

#[test]
fn login_after_session_purge_joins_again() {
    let mut server = ServerState::new(None, None);
    let a = connect(&mut server, "a");
    assert!(matches!(login(&a, &mut server, "ann", "s"), Step::Send(ServerMessage::ServerInfo {})));
    server.drop_peer(a.peer_id);
    assert_eq!(server.session_count(), 0);
    assert!(matches!(login(&a, &mut server, "ann", "s"), Step::Send(ServerMessage::ServerInfo {})));
    assert_eq!(server.session("s").unwrap().peers().as_slice(), &[a.peer_id]);
    assert!(server.has_live_session(a.peer_id));
}
