//! The decisions of one client connection.
//!
//! The application runs the connection: it reads messages, ticks a delivery
//! timer, asks the manager about logins and writes what is to be sent. Each
//! of those events is handed to a [`Connection`] together with the server
//! state; the connection updates the state and answers with the [`Step`] the
//! application is to take next.

use crate::codec::{
    states_view, ClientMessage, ClientMessageView, MessageCodecError, PeerId, ServerMessage,
    ServerMessageView,
};
use crate::manager::{is_first_segment, session_access_request, SessionAccessRequest, SessionAccessRequestView};
use crate::server::{
    already_associated_text, peer_text, remove_id, ServerState, ServerView, TaggedState,
    TaggedStateView,
};
use crate::text::concat;
use vstd::prelude::*;
use vstd::string::StringExecFns;
use vstd::utf8::encode_utf8;

verus! {

/// The logic of the connection of one peer.
pub struct Connection {
    pub peer_id: PeerId,
}

/// What the application is to do next.
pub enum Step {
    /// Nothing to send; go on.
    Continue,
    /// The peer is to be disconnected; end the connection.
    Stop,
    /// Send this message and go on.
    Send(ServerMessage),
    /// Send this message, then end the connection with this error.
    SendThenClose(ServerMessage, MessageCodecError),
    /// End the connection with this error.
    Close(MessageCodecError),
    /// Ask the manager whether this login may proceed, then call
    /// [`Connection::finish_login`] with the answer.
    CheckPermission { manager_url: String, request: SessionAccessRequest, session_id: String },
}

/// The mathematical value of a [`Step`].
pub enum StepView {
    Continue,
    Stop,
    Send(ServerMessageView),
    SendThenClose(ServerMessageView, Seq<char>),
    Close(Seq<char>),
    CheckPermission { manager_url: Seq<char>, request: SessionAccessRequestView, session_id: Seq<char> },
}

impl View for Step {
    type V = StepView;

    open spec fn view(&self) -> StepView {
        match self {
            Step::Continue => StepView::Continue,
            Step::Stop => StepView::Stop,
            Step::Send(m) => StepView::Send(m@),
            Step::SendThenClose(m, e) => StepView::SendThenClose(m@, e.message@),
            Step::Close(e) => StepView::Close(e.message@),
            Step::CheckPermission { manager_url, request, session_id } => StepView::CheckPermission {
                manager_url: manager_url@,
                request: request@,
                session_id: session_id@,
            },
        }
    }
}

/// A failure message to the client.
pub open spec fn failure(text: Seq<char>) -> ServerMessageView {
    ServerMessageView::Failure { message: text }
}

/// The state after a login starts: other connections of the same user name
/// are dropped, and the peer takes the name.
pub open spec fn login_begin(v: ServerView, pid: PeerId, username: Seq<char>) -> ServerView {
    v.drop_peers_by_username(username).with_username(pid, username)
}

/// The end of a login into session `sid`, `allowed` or not by the manager:
/// refused logins are answered with a failure and end the connection; an
/// allowed one joins the session (creating it if needed), marks every other
/// member dirty for the peer and is answered with the server information. A
/// peer that still has a session cannot join another: the connection ends.
pub open spec fn login_finish(w: ServerView, pid: PeerId, sid: Seq<char>, allowed: bool) -> (ServerView, StepView) {
    if !allowed {
        (
            w,
            StepView::SendThenClose(failure("authentication failed"@), "invalid user credentials"@),
        )
    } else {
        let g = w.get_or_create_session(sid);
        match g.live_session_of(pid) {
            Some(_) => (g, StepView::Close(already_associated_text(g.peer(pid), g.session(sid)))),
            None => {
                let j = g.join(pid, sid);
                (
                    j.with_dirty(pid, remove_id(j.session(sid).peers, pid)),
                    StepView::Send(ServerMessageView::ServerInfo),
                )
            },
        }
    }
}

/// The error text for a client that sent a failure message.
pub open spec fn unexpected_failure_text(p: crate::server::PeerView, message: Seq<char>) -> Seq<char> {
    peer_text(p) + " sent unexpected failure: `"@ + message + "`"@
}

/// The states delivered to a peer from the peers `ids`, in order: those that
/// are connected and have published a state, with the requested tag if there
/// is one, each under the publisher's delivery id.
pub open spec fn delivered_states(v: ServerView, ids: Seq<PeerId>, tag: Option<Seq<char>>) -> Seq<(PeerId, TaggedStateView)>
    decreases ids.len(),
{
    if ids.len() == 0 {
        Seq::empty()
    } else {
        let r = delivered_states(v, ids.drop_last(), tag);
        let q = v.peer(ids.last());
        if v.has_peer(ids.last()) && q.state is Some && (tag matches Some(t) ==> q.state->Some_0.tag == t) {
            r.push((q.delivery_id, q.state->Some_0))
        } else {
            r
        }
    }
}

/// A delivery tick: a peer marked for disconnection stops; a peer without a
/// session gets nothing; otherwise a pending full-delivery request is taken,
/// the out-of-date peers are computed, the dirty peers are cleared, and the
/// states are sent: all matching states of the session as a full sync when
/// requested, else the states of the dirty peers as updates.
pub open spec fn tick_spec(v: ServerView, pid: PeerId) -> (ServerView, StepView) {
    let p = v.peer(pid);
    if p.terminate {
        (v, StepView::Stop)
    } else if v.live_session_of(pid) is None {
        (v, StepView::Continue)
    } else {
        let full = p.full_delivery;
        let v1 = v.with_full_delivery(pid, None);
        let ids = v1.out_of_date_peers(pid, full is Some)->Some_0;
        let v2 = v1.with_dirty(pid, Seq::empty());
        let states = delivered_states(v2, ids, full);
        (
            v2,
            StepView::Send(
                if full is Some {
                    ServerMessageView::FullSync { states }
                } else {
                    ServerMessageView::UpdateState { states }
                },
            ),
        )
    }
}

/// What handling client message `m` did, from state `v` to state `w` with
/// step `step`, for peer `pid`.
pub open spec fn message_handled(v: ServerView, w: ServerView, pid: PeerId, m: ClientMessageView, step: StepView) -> bool {
    match m {
        ClientMessageView::Login { username, auth_token, session_id } => {
            let b = login_begin(v, pid, username);
            match (b.manager_url, b.manager_api_key) {
                (Some(url), Some(key)) => {
                    &&& w == b
                    &&& step matches StepView::CheckPermission { manager_url, request, session_id: sid }
                    &&& manager_url == url
                    &&& sid == session_id
                    &&& request.api_key == key
                    &&& request.auth_token == auth_token
                    &&& request.username == username
                    &&& is_first_segment(encode_utf8(request.session_id), encode_utf8(session_id))
                },
                _ => (w, step) == login_finish(b, pid, session_id, true),
            }
        },
        ClientMessageView::UpdateState { tag, data } => {
            let st = TaggedStateView { tag, data };
            if ServerView::state_fits(st) {
                w == v.set_peer_state(pid, st) && step == StepView::Continue
            } else {
                w == v && step == StepView::Send(failure("failed to process state update"@))
            }
        },
        ClientMessageView::StateQuery { tag } => w == v.with_full_delivery(pid, Some(tag)) && step
            == StepView::Continue,
        ClientMessageView::Failure { message } => w == v && step == StepView::Close(
            unexpected_failure_text(v.peer(pid), message),
        ),
    }
}

/// The server keeps its invariant and the peer stays connected.
pub open spec fn peer_ok(v: ServerView, pid: PeerId) -> bool {
    v.wf() && v.has_peer(pid)
}

/// Law: a peer whose login into `sid` is allowed (and who has no session
/// left) is answered with the server information, and its next delivery
/// tick sends it the states of all members the session had before it
/// joined, those that have published one, as updates.
pub proof fn lemma_login_then_first_delivery(w: ServerView, pid: PeerId, sid: Seq<char>)
    requires
        peer_ok(w, pid),
        w.can_create(sid),
        w.get_or_create_session(sid).live_session_of(pid) is None,
        !w.peer(pid).terminate,
        w.peer(pid).full_delivery is None,
    ensures
        ({
            let (x, step) = login_finish(w, pid, sid, true);
            let members = w.get_or_create_session(sid).session(sid).peers;
            let (y, delivery) = tick_spec(x, pid);
            &&& step == StepView::Send(ServerMessageView::ServerInfo)
            &&& peer_ok(x, pid)
            &&& delivery == StepView::Send(
                ServerMessageView::UpdateState { states: delivered_states(y, members, None) },
            )
        }),
{
    let g = w.get_or_create_session(sid);
    crate::server::lemma_get_or_create_session_wf(w, sid);
    assert(g.peers == w.peers);
    assert(g.has_peer(pid));
    let j = g.join(pid, sid);
    crate::server::lemma_join_wf(g, pid, sid);
    crate::server::lemma_join_then_all_peers(g, pid, sid);
    let members = g.session(sid).peers;
    let pi = g.peer_pos(pid);
    assert(g.peers[pi].id == pid);
    assert(j.has_peer(pid));
    let si = g.session_pos(sid);
    assert(g.sessions[si].id == sid);
    crate::server::lemma_session_pos(j, si);
    crate::server::lemma_peer_pos(j, pi);
    assert(j.peer(pid) == j.peers[pi]);
    let dq = crate::server::PeerView { state_dirty: remove_id(j.session(sid).peers, pid), ..j.peer(pid) };
    crate::server::lemma_update_peer_wf(j, pid, dq);
    let x = j.with_dirty(pid, remove_id(j.session(sid).peers, pid));
    assert(x.peer(pid) == dq);
    assert(x.sessions == j.sessions);
    assert(x.live_session_of(pid) == Some(sid));
    assert(!x.peer(pid).terminate);
    let fq = crate::server::PeerView { full_delivery: None, ..x.peer(pid) };
    crate::server::lemma_update_peer_wf(x, pid, fq);
    let v1 = x.with_full_delivery(pid, None);
    assert(v1.peer(pid) == fq);
    assert(v1.sessions == x.sessions);
    assert(v1.live_session_of(pid) == Some(sid));
    assert(v1.peer(pid).state_dirty == members);
    assert forall|i: int| 0 <= i < members.len() implies v1.has_peer(#[trigger] members[i]) by {
        assert(g.sessions[si].peers.contains(members[i]));
        assert(g.has_peer(members[i]));
        assert(forall|k: int| 0 <= k < g.peers.len() ==> #[trigger] g.peers[k].id == j.peers[k].id);
        crate::server::lemma_same_peer_ids(g, j, members[i]);
        assert(j.has_peer(members[i]));
        assert(x.has_peer(members[i]));
    }
    crate::server::lemma_connected_ids_all(v1, members);
    assert(v1.out_of_date_peers(pid, false) == Some(members));
}

/// A connected peer with a published state that matches `tag` is among the
/// states delivered from `ids` whenever its id is.
proof fn lemma_delivered_contains(v: ServerView, ids: Seq<PeerId>, tag: Option<Seq<char>>, m: PeerId)
    requires
        ids.contains(m),
        v.has_peer(m),
        v.peer(m).state is Some,
        tag matches Some(t) ==> v.peer(m).state->Some_0.tag == t,
    ensures
        delivered_states(v, ids, tag).contains((v.peer(m).delivery_id, v.peer(m).state->Some_0)),
    decreases ids.len(),
{
    let r = delivered_states(v, ids.drop_last(), tag);
    let e = (v.peer(m).delivery_id, v.peer(m).state->Some_0);
    if ids.last() == m {
        assert(r.push(e)[r.len() as int] == e);
    } else {
        let k = choose|k: int| 0 <= k < ids.len() && ids[k] == m;
        assert(ids.drop_last()[k] == m);
        lemma_delivered_contains(v, ids.drop_last(), tag, m);
        let j = choose|j: int| 0 <= j < r.len() && r[j] == e;
        let q = v.peer(ids.last());
        if v.has_peer(ids.last()) && q.state is Some && (tag matches Some(t) ==> q.state->Some_0.tag == t) {
            assert(r.push((q.delivery_id, q.state->Some_0))[j] == e);
        }
    }
}

/// Every state delivered for a tag request has that tag.
proof fn lemma_delivered_tags(v: ServerView, ids: Seq<PeerId>, t: Seq<char>)
    ensures
        forall|k: int|
            0 <= k < delivered_states(v, ids, Some(t)).len() ==> (#[trigger] delivered_states(v, ids, Some(t))[k]).1.tag
                == t,
    decreases ids.len(),
{
    if ids.len() > 0 {
        lemma_delivered_tags(v, ids.drop_last(), t);
        let r = delivered_states(v, ids.drop_last(), Some(t));
        let q = v.peer(ids.last());
        if v.has_peer(ids.last()) && q.state is Some && q.state->Some_0.tag == t {
            let e = (q.delivery_id, q.state->Some_0);
            assert forall|k: int| 0 <= k < r.push(e).len() implies (#[trigger] r.push(e)[k]).1.tag == t by {
                if k < r.len() {
                    assert(r.push(e)[k] == r[k]);
                }
            }
        }
    }
}

/// Law: after a state query with tag `t`, the peer's next delivery tick
/// sends a full sync that holds the published state of every other member
/// of its session whose state has tag `t`, whether or not that member
/// changed since the last delivery, and holds only states with tag `t`.
pub proof fn lemma_full_sync_covers_session(v: ServerView, pid: PeerId, t: Seq<char>, sid: Seq<char>, m: PeerId)
    requires
        peer_ok(v, pid),
        !v.peer(pid).terminate,
        v.peer(pid).full_delivery == Some(t),
        v.live_session_of(pid) == Some(sid),
        v.session(sid).peers.contains(m),
        m != pid,
        v.peer(m).state matches Some(st) && st.tag == t,
    ensures
        tick_spec(v, pid).1 matches StepView::Send(ServerMessageView::FullSync { states }) && states.contains(
            (v.peer(m).delivery_id, v.peer(m).state->Some_0),
        ) && forall|k: int| 0 <= k < states.len() ==> (#[trigger] states[k]).1.tag == t,
{
    assert(v.peers[v.peer_pos(pid)].id == pid);
    let si = v.session_pos(sid);
    assert(v.sessions[si].id == sid);
    assert(v.sessions[si].peers.contains(m));
    assert(v.has_peer(m));
    let q1 = crate::server::PeerView { full_delivery: None, ..v.peer(pid) };
    crate::server::lemma_update_peer_wf(v, pid, q1);
    let v1 = v.with_full_delivery(pid, None);
    assert(v1.sessions == v.sessions);
    assert(v1.live_session_of(pid) == Some(sid));
    let ids = remove_id(v1.session(sid).peers, pid);
    assert(v1.out_of_date_peers(pid, true) == Some(ids));
    crate::server::lemma_remove_id(v1.session(sid).peers, pid);
    assert(ids.contains(m));
    assert(v1.peers[v1.peer_pos(pid)].id == pid);
    let q2 = crate::server::PeerView { state_dirty: Seq::empty(), ..v1.peer(pid) };
    crate::server::lemma_update_peer_wf(v1, pid, q2);
    let v2 = v1.with_dirty(pid, Seq::empty());
    assert(v2.peer(m) == v.peer(m));
    lemma_delivered_contains(v2, ids, Some(t), m);
    lemma_delivered_tags(v2, ids, t);
}

impl Connection {
    pub fn new(peer_id: PeerId) -> (r: Self)
        ensures
            r.peer_id == peer_id,
    {
        Connection { peer_id }
    }

    /// Ends a login, once the manager has answered (or when none is asked),
    /// see [`login_finish`].
    pub fn finish_login(&self, server: &mut ServerState, session_id: &str, allowed: bool) -> (r: Step)
        requires
            peer_ok(old(server)@, self.peer_id),
            old(server)@.can_create(session_id@),
        ensures
            peer_ok(final(server)@, self.peer_id),
            (final(server)@, r@) == login_finish(old(server)@, self.peer_id, session_id@, allowed),
    {
        let pid = self.peer_id;
        if !allowed {
            return Step::SendThenClose(
                ServerMessage::Failure { message: String::from_str("authentication failed") },
                MessageCodecError::new(String::from_str("invalid user credentials")),
            );
        }
        let ghost v = server@;
        proof {
            crate::server::lemma_get_or_create_session_wf(v, session_id@);
        }
        server.get_or_create_session(session_id);
        let ghost g = server@;
        assert(g.peers == v.peers);
        assert(g.has_peer(pid));
        match server.join_peer_to_session(pid, session_id) {
            Ok(()) => {},
            Err(e) => return Step::Close(MessageCodecError::new(e.message)),
        }
        proof {
            crate::server::lemma_join_wf(g, pid, session_id@);
            crate::server::lemma_join_then_all_peers(g, pid, session_id@);
            let si = g.session_pos(session_id@);
            let pi = g.peer_pos(pid);
            assert(g.sessions[si].id == session_id@);
            assert(g.peers[pi].id == pid);
            crate::server::lemma_session_pos(server@, si);
            crate::server::lemma_peer_pos(server@, pi);
        }
        let ids = match server.get_out_of_date_peers(pid, true) {
            Ok(ids) => ids,
            Err(e) => return Step::Close(MessageCodecError::new(e.message)),
        };
        proof {
            let j = server@;
            assert(j.peers[j.peer_pos(pid)].id == pid);
            crate::server::lemma_update_peer_wf(
                j,
                pid,
                crate::server::PeerView { state_dirty: ids@, ..j.peer(pid) },
            );
        }
        server.set_dirty(pid, ids);
        Step::Send(ServerMessage::ServerInfo {  })
    }

    /// Handles one message of the client, see [`message_handled`].
    pub fn handle_message(&self, server: &mut ServerState, msg: ClientMessage) -> (r: Step)
        requires
            peer_ok(old(server)@, self.peer_id),
            old(server)@.session_counter < u64::MAX,
        ensures
            peer_ok(final(server)@, self.peer_id),
            message_handled(old(server)@, final(server)@, self.peer_id, msg@, r@),
    {
        let pid = self.peer_id;
        let ghost v = server@;
        match msg {
            ClientMessage::Login { username, auth_token, session_id } => {
                let ghost ids = v.named_in_sessions(v.sessions.len() as int, username@);
                proof {
                    crate::server::lemma_named_in_sessions_connected(v, v.sessions.len() as int, username@);
                    crate::server::lemma_drop_all_wf(v, ids);
                }
                server.drop_peers_by_username(&username);
                let ghost d = server@;
                proof {
                    assert(d == v.drop_all(ids));
                    assert(d.has_peer(pid));
                    assert(d.peers[d.peer_pos(pid)].id == pid);
                    crate::server::lemma_update_peer_wf(
                        d,
                        pid,
                        crate::server::PeerView { username: Some(username@), ..d.peer(pid) },
                    );
                }
                server.set_username(pid, username.clone());
                match server.manager() {
                    Some((url, key)) => {
                        let request = session_access_request(
                            key.as_str(),
                            auth_token.as_str(),
                            session_id.as_str(),
                            username.as_str(),
                        );
                        Step::CheckPermission { manager_url: url, request, session_id }
                    },
                    None => self.finish_login(server, session_id.as_str(), true),
                }
            },
            ClientMessage::UpdateState { tag, data } => {
                let state = TaggedState { tag, data };
                if server.set_peer_state(pid, state) {
                    proof {
                        crate::server::lemma_publish_keeps_peers(v, pid, TaggedStateView { tag: tag@, data: data@ });
                    }
                    Step::Continue
                } else {
                    Step::Send(
                        ServerMessage::Failure {
                            message: String::from_str("failed to process state update"),
                        },
                    )
                }
            },
            ClientMessage::StateQuery { tag } => {
                proof {
                    assert(v.peers[v.peer_pos(pid)].id == pid);
                    crate::server::lemma_update_peer_wf(
                        v,
                        pid,
                        crate::server::PeerView { full_delivery: Some(tag@), ..v.peer(pid) },
                    );
                }
                server.set_full_delivery(pid, Some(tag));
                Step::Continue
            },
            ClientMessage::Failure { message } => {
                let text = match server.peer(pid) {
                    Some(p) => concat(
                        concat(concat(p.describe().as_str(), " sent unexpected failure: `").as_str(), message.as_str()).as_str(),
                        "`",
                    ),
                    None => String::new(),
                };
                Step::Close(MessageCodecError::new(text))
            },
        }
    }
}

impl Connection {
    /// A delivery tick, see [`tick_spec`].
    pub fn tick(&self, server: &mut ServerState) -> (r: Step)
        requires
            peer_ok(old(server)@, self.peer_id),
        ensures
            peer_ok(final(server)@, self.peer_id),
            (final(server)@, r@) == tick_spec(old(server)@, self.peer_id),
    {
        let pid = self.peer_id;
        let ghost v = server@;
        let terminate = match server.peer(pid) {
            Some(p) => p.terminate,
            None => false,
        };
        if terminate {
            return Step::Stop;
        }
        if !server.has_live_session(pid) {
            return Step::Continue;
        }
        proof {
            assert(v.peers[v.peer_pos(pid)].id == pid);
            crate::server::lemma_update_peer_wf(
                v,
                pid,
                crate::server::PeerView { full_delivery: None, ..v.peer(pid) },
            );
        }
        let full = server.take_full_delivery(pid);
        let ghost v1 = server@;
        assert(v1.sessions == v.sessions);
        assert(v1.peer(pid).session == v.peer(pid).session);
        let ids = match server.get_out_of_date_peers(pid, full.is_some()) {
            Ok(ids) => ids,
            Err(e) => return Step::Close(MessageCodecError::new(e.message)),
        };
        proof {
            assert(v1.peers[v1.peer_pos(pid)].id == pid);
            crate::server::lemma_update_peer_wf(
                v1,
                pid,
                crate::server::PeerView { state_dirty: Seq::empty(), ..v1.peer(pid) },
            );
        }
        server.clear_dirty(pid);
        let ghost v2 = server@;
        let mut states: Vec<(PeerId, TaggedState)> = Vec::new();
        let mut j: usize = 0;
        assert(ids@.take(0) =~= Seq::<PeerId>::empty());
        while j < ids.len()
            invariant
                server@ == v2,
                v2.wf(),
                j <= ids@.len(),
                states_view(states@) == delivered_states(v2, ids@.take(j as int), crate::server::opt_chars(full)),
            decreases ids@.len() - j,
        {
            assert(ids@.take(j + 1).drop_last() =~= ids@.take(j as int));
            assert(ids@.take(j + 1).last() == ids@[j as int]);
            let ghost before = states@;
            match server.peer(ids[j]) {
                Some(q) => match &q.state {
                    Some(st) => {
                        let wanted = match &full {
                            Some(tag) => st.tag == *tag,
                            None => true,
                        };
                        if wanted {
                            states.push((q.delivery_id, st.duplicate()));
                            assert(states_view(states@) =~= states_view(before).push(
                                (q.delivery_id, st@),
                            ));
                        }
                    },
                    None => {},
                },
                None => {},
            }
            j = j + 1;
        }
        assert(ids@.take(ids@.len() as int) =~= ids@);
        if full.is_some() {
            Step::Send(ServerMessage::FullSync { states })
        } else {
            Step::Send(ServerMessage::UpdateState { states })
        }
    }

    /// The client is gone: its peer leaves its session and the server.
    pub fn disconnect(&self, server: &mut ServerState)
        requires
            peer_ok(old(server)@, self.peer_id),
        ensures
            final(server)@ == old(server)@.disconnect(self.peer_id),
            final(server)@.wf(),
            !final(server)@.has_peer(self.peer_id),
    {
        server.disconnect_peer(self.peer_id);
    }
}

} // verus!
