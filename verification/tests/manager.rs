use haunted_server::manager::{
    check_access_url, first_segment, login_permitted, session_access_request,
    session_players_url, sessions_players_request, SuccessResponse,
};
use haunted_server::server::{Peer, ServerState};

#[test]
fn first_segment_cuts_at_slash() {
    assert_eq!(first_segment("abc/def/g"), "abc");
    assert_eq!(first_segment("abc"), "abc");
    assert_eq!(first_segment("/x"), "");
    assert_eq!(first_segment(""), "");
    assert_eq!(first_segment("héé/ü"), "héé");
}

#[test]
fn access_request_and_urls() {
    let r = session_access_request("k", "tok", "sess/extra", "ann");
    assert_eq!(r.api_key, "k");
    assert_eq!(r.auth_token, "tok");
    assert_eq!(r.session_id, "sess");
    assert_eq!(r.username, "ann");
    assert_eq!(check_access_url("http://h"), "http://h/api/v0/sessions/check-access");
    assert_eq!(session_players_url("http://h"), "http://h/api/v0/sessions/session-players");
}

#[test]
fn permission_from_answer() {
    assert!(!login_permitted(None));
    assert!(!login_permitted(Some(SuccessResponse { message: "no".into(), success: false })));
    assert!(login_permitted(Some(SuccessResponse { message: String::new(), success: true })));
}

#[test]
fn players_report() {
    let mut server = ServerState::new(None, None);
    for id in 1..=3u64 {
        assert!(server.register_peer(Peer::new(id, "a".into(), id)));
    }
    server.set_username(1, "ann".into());
    server.set_username(3, "cid".into());
    server.get_or_create_session("s/1");
    server.get_or_create_session("t");
    server.join_peer_to_session(1, "s/1").unwrap();
    server.join_peer_to_session(2, "s/1").unwrap();
    server.join_peer_to_session(3, "t").unwrap();
    let req = sessions_players_request(&server, "key");
    assert_eq!(req.api_key, "key");
    assert_eq!(req.sessions.len(), 2);
    assert_eq!(req.sessions[0].session_id, "s");
    assert_eq!(req.sessions[0].usernames, vec!["ann".to_string()]);
    assert_eq!(req.sessions[1].session_id, "t");
    assert_eq!(req.sessions[1].usernames, vec!["cid".to_string()]);
}
