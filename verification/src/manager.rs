//! What the server tells the session manager ("Haunted Manager") and what it
//! makes of the answers. The HTTP calls themselves are made by the
//! application; here are the request bodies, the URLs and the decisions.

use crate::server::{ServerState, ServerView};
use crate::text::concat;
use vstd::prelude::*;
use vstd::string::StringExecFns;
use vstd::utf8::{encode_utf8, is_char_boundary, is_continuation_byte, valid_utf8};

verus! {

/// The manager's answer to an access check.
pub struct SuccessResponse {
    pub message: String,
    pub success: bool,
}

/// The body of an access check: may `username` join `session_id`?
pub struct SessionAccessRequest {
    pub api_key: String,
    pub auth_token: String,
    pub session_id: String,
    pub username: String,
}

/// The logged-in users of one session.
pub struct SessionPlayers {
    pub session_id: String,
    pub usernames: Vec<String>,
}

/// The body of the periodic report of logged-in users.
pub struct SessionsPlayersRequest {
    pub api_key: String,
    pub sessions: Vec<SessionPlayers>,
}

/// The mathematical value of a [`SessionAccessRequest`].
#[verifier::ext_equal]
pub struct SessionAccessRequestView {
    pub api_key: Seq<char>,
    pub auth_token: Seq<char>,
    pub session_id: Seq<char>,
    pub username: Seq<char>,
}

impl View for SessionAccessRequest {
    type V = SessionAccessRequestView;

    open spec fn view(&self) -> SessionAccessRequestView {
        SessionAccessRequestView {
            api_key: self.api_key@,
            auth_token: self.auth_token@,
            session_id: self.session_id@,
            username: self.username@,
        }
    }
}

/// The mathematical value of a [`SessionPlayers`].
#[verifier::ext_equal]
pub struct SessionPlayersView {
    pub session_id: Seq<char>,
    pub usernames: Seq<Seq<char>>,
}

impl View for SessionPlayers {
    type V = SessionPlayersView;

    open spec fn view(&self) -> SessionPlayersView {
        SessionPlayersView {
            session_id: self.session_id@,
            usernames: self.usernames@.map_values(|u: String| u@),
        }
    }
}

/// The byte `/`, which separates a session id's segments.
pub open spec fn slash() -> u8 {
    47
}

/// `seg` is the part of `b` before its first `/` byte (all of `b` without one).
pub open spec fn is_first_segment(seg: Seq<u8>, b: Seq<u8>) -> bool {
    &&& seg.len() <= b.len()
    &&& seg == b.take(seg.len() as int)
    &&& forall|i: int| 0 <= i < seg.len() ==> #[trigger] b[i] != slash()
    &&& seg.len() < b.len() ==> b[seg.len() as int] == slash()
}

/// The part of `s` before its first `/` (all of `s` when it has none). The
/// manager knows sessions by that part only.
pub fn first_segment(s: &str) -> (r: String)
    ensures
        is_first_segment(encode_utf8(r@), encode_utf8(s@)),
{
    let bytes = s.as_bytes();
    let ghost b = encode_utf8(s@);
    let mut k: usize = 0;
    while k < bytes.len() && bytes[k] != 47
        invariant
            bytes@ == b,
            k <= b.len(),
            forall|i: int| 0 <= i < k ==> #[trigger] b[i] != slash(),
        decreases b.len() - k,
    {
        k = k + 1;
    }
    proof {
        vstd::utf8::encode_utf8_valid_utf8(s@);
        if k < b.len() {
            vstd::utf8::is_char_boundary_iff_not_is_continuation_byte(b, k as int);
            assert(!is_continuation_byte(b[k as int]));
        } else {
            vstd::utf8::is_char_boundary_start_end_of_seq(b);
        }
        assert(is_char_boundary(b, k as int));
    }
    let (head, _) = s.split_at(k);
    let r = String::from_str(head);
    assert(encode_utf8(r@) =~= b.take(k as int));
    r
}

/// The access check request for a login.
pub fn session_access_request(api_key: &str, auth_token: &str, session_id: &str, username: &str) -> (r: SessionAccessRequest)
    ensures
        r@.api_key == api_key@,
        r@.auth_token == auth_token@,
        is_first_segment(encode_utf8(r@.session_id), encode_utf8(session_id@)),
        r@.username == username@,
{
    SessionAccessRequest {
        api_key: String::from_str(api_key),
        auth_token: String::from_str(auth_token),
        session_id: first_segment(session_id),
        username: String::from_str(username),
    }
}

/// The URL of the manager's access check.
pub fn check_access_url(base_url: &str) -> (r: String)
    ensures
        r@ == base_url@ + "/api/v0/sessions/check-access"@,
{
    concat(base_url, "/api/v0/sessions/check-access")
}

/// The URL of the manager's report of logged-in users.
pub fn session_players_url(base_url: &str) -> (r: String)
    ensures
        r@ == base_url@ + "/api/v0/sessions/session-players"@,
{
    concat(base_url, "/api/v0/sessions/session-players")
}

/// Whether a login may proceed, given the manager's answer (`None` when the
/// manager could not be asked or did not answer properly).
pub fn login_permitted(answer: Option<SuccessResponse>) -> (r: bool)
    ensures
        r == (answer matches Some(a) && a.success),
{
    match answer {
        Some(a) => a.success,
        None => false,
    }
}

/// The user names of the connected, logged-in peers among `members`, in
/// member order.
pub open spec fn usernames_of(v: ServerView, members: Seq<u64>) -> Seq<Seq<char>>
    decreases members.len(),
{
    if members.len() == 0 {
        Seq::empty()
    } else {
        let r = usernames_of(v, members.drop_last());
        let m = members.last();
        if v.has_peer(m) && v.peer(m).username is Some {
            r.push(v.peer(m).username->Some_0)
        } else {
            r
        }
    }
}

/// Member `m` is a connected peer that has logged in.
pub open spec fn logged_in(v: ServerView, m: u64) -> bool {
    v.has_peer(m) && v.peer(m).username is Some
}

/// Law: the user names reported for a session are those of its connected,
/// logged-in members, every one of them, in member order: the members kept
/// by `logged_in`, each mapped to its user name.
pub proof fn lemma_usernames_of_logged_in(v: ServerView, members: Seq<u64>)
    ensures
        usernames_of(v, members) == members.filter(|m: u64| logged_in(v, m)).map_values(
            |m: u64| v.peer(m).username->Some_0,
        ),
        usernames_of(v, members).len() == members.filter(|m: u64| logged_in(v, m)).len(),
    decreases members.len(),
{
    reveal(Seq::filter);
    let p = |m: u64| logged_in(v, m);
    let f = |m: u64| v.peer(m).username->Some_0;
    if members.len() == 0 {
        assert(members.filter(p) =~= Seq::<u64>::empty());
        assert(members.filter(p).map_values(f) =~= Seq::<Seq<char>>::empty());
    } else {
        lemma_usernames_of_logged_in(v, members.drop_last());
        let sub = members.drop_last().filter(p);
        if p(members.last()) {
            assert(members.filter(p) == sub.push(members.last()));
            assert(sub.push(members.last()).map_values(f) =~= sub.map_values(f).push(f(members.last())));
        } else {
            assert(members.filter(p) == sub);
        }
    }
}

/// The report entry for session `i` of the server.
pub open spec fn session_players(v: ServerView, i: int) -> SessionPlayersView {
    SessionPlayersView {
        session_id: v.sessions[i].id,
        usernames: usernames_of(v, v.sessions[i].peers),
    }
}

/// The periodic report of logged-in users: one entry per session, in session
/// order, with the session id cut at its first `/`.
pub fn sessions_players_request(server: &ServerState, api_key: &str) -> (r: SessionsPlayersRequest)
    requires
        server@.wf(),
    ensures
        r.api_key@ == api_key@,
        r.sessions@.len() == server@.sessions.len(),
        forall|i: int|
            0 <= i < r.sessions@.len() ==> {
                &&& is_first_segment(
                    encode_utf8(#[trigger] r.sessions@[i]@.session_id),
                    encode_utf8(server@.sessions[i].id),
                )
                &&& r.sessions@[i]@.usernames == usernames_of(server@, server@.sessions[i].peers)
            },
{
    let mut sessions: Vec<SessionPlayers> = Vec::new();
    let mut i: usize = 0;
    while i < server.session_count()
        invariant
            server@.wf(),
            i <= server@.sessions.len(),
            sessions@.len() == i,
            forall|k: int|
                0 <= k < i ==> {
                    &&& is_first_segment(
                        encode_utf8(#[trigger] sessions@[k]@.session_id),
                        encode_utf8(server@.sessions[k].id),
                    )
                    &&& sessions@[k]@.usernames == usernames_of(server@, server@.sessions[k].peers)
                },
        decreases server@.sessions.len() - i,
    {
        let session = server.session_at(i);
        let members = session.peers();
        assert(members@ == server@.sessions[i as int].peers);
        let mut names: Vec<String> = Vec::new();
        let mut j: usize = 0;
        assert(members@.take(0) =~= Seq::<u64>::empty());
        while j < members.len()
            invariant
                server@.wf(),
                i < server@.sessions.len(),
                members@ == server@.sessions[i as int].peers,
                session@ == server@.sessions[i as int],
                j <= members@.len(),
                names@.map_values(|u: String| u@) == usernames_of(server@, members@.take(j as int)),
            decreases members@.len() - j,
        {
            assert(members@.take(j + 1).drop_last() =~= members@.take(j as int));
            assert(members@.take(j + 1).last() == members@[j as int]);
            let ghost before = names@;
            match server.peer(members[j]) {
                Some(p) => match &p.username {
                    Some(u) => {
                        names.push(u.clone());
                        assert(names@.map_values(|u: String| u@) =~= before.map_values(|u: String| u@).push(u@));
                    },
                    None => {},
                },
                None => {},
            }
            j = j + 1;
        }
        assert(members@.take(members@.len() as int) =~= members@);
        let id = first_segment(session.id());
        let ghost before = sessions@;
        sessions.push(SessionPlayers { session_id: id, usernames: names });
        assert(sessions@[i as int]@.usernames == usernames_of(server@, server@.sessions[i as int].peers));
        assert(forall|k: int| 0 <= k < i ==> sessions@[k] == before[k]);
        i = i + 1;
    }
    SessionsPlayersRequest { api_key: String::from_str(api_key), sessions }
}

} // verus!
