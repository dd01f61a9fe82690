//! Sessions and peers.
//!
//! The server keeps every connected peer and every session. A session has an
//! id and a set of member peers; a peer has at most one associated session,
//! a published state, and the set of session peers whose newest state it has
//! not been sent yet ("dirty" peers).

use crate::codec::{PeerId, MAX_STATE_SIZE_BYTES};
use crate::text::{concat, decimal, u64_to_decimal};
use vstd::prelude::*;
use vstd::string::StringExecFns;

verus! {

// ---------------------------------------------------------------------------
// Sets of peer ids kept in sequences

/// `s` without any occurrence of `x`, in order.
pub open spec fn remove_id(s: Seq<PeerId>, x: PeerId) -> Seq<PeerId>
    decreases s.len(),
{
    if s.len() == 0 {
        s
    } else if s.last() == x {
        remove_id(s.drop_last(), x)
    } else {
        remove_id(s.drop_last(), x).push(s.last())
    }
}

/// `s` with `x` added at the end unless it is already there.
pub open spec fn insert_id(s: Seq<PeerId>, x: PeerId) -> Seq<PeerId> {
    if s.contains(x) {
        s
    } else {
        s.push(x)
    }
}

/// What `remove_id` keeps, and that it keeps a duplicate-free sequence so.
pub proof fn lemma_remove_id(s: Seq<PeerId>, x: PeerId)
    ensures
        forall|y: PeerId| #[trigger] remove_id(s, x).contains(y) <==> s.contains(y) && y != x,
        s.no_duplicates() ==> remove_id(s, x).no_duplicates(),
        remove_id(s, x).len() <= s.len(),
    decreases s.len(),
{
    if s.len() > 0 {
        let t = s.drop_last();
        lemma_remove_id(t, x);
        assert forall|y: PeerId| s.contains(y) <==> t.contains(y) || y == s.last() by {
            if s.contains(y) {
                let k = choose|k: int| 0 <= k < s.len() && s[k] == y;
                if k < s.len() - 1 {
                    assert(t[k] == y);
                }
            }
            if t.contains(y) {
                let k = choose|k: int| 0 <= k < t.len() && t[k] == y;
                assert(s[k] == y);
            }
            if y == s.last() {
                assert(s[s.len() - 1] == y);
            }
        }
        if s.no_duplicates() {
            assert(t.no_duplicates()) by {
                assert forall|i: int, j: int| 0 <= i < t.len() && 0 <= j < t.len() && i != j implies t[i] != t[j] by {
                    assert(t[i] == s[i] && t[j] == s[j]);
                }
            }
            assert(!t.contains(s.last())) by {
                if t.contains(s.last()) {
                    let k = choose|k: int| 0 <= k < t.len() && t[k] == s.last();
                    assert(s[k] == s[s.len() - 1]);
                }
            }
        }
        if s.last() != x {
            let r = remove_id(t, x);
            assert forall|y: PeerId| #[trigger] r.push(s.last()).contains(y) <==> r.contains(y) || y == s.last() by {
                if r.push(s.last()).contains(y) {
                    let k = choose|k: int| 0 <= k < r.len() + 1 && r.push(s.last())[k] == y;
                    if k < r.len() {
                        assert(r[k] == y);
                    }
                }
                if r.contains(y) {
                    let k = choose|k: int| 0 <= k < r.len() && r[k] == y;
                    assert(r.push(s.last())[k] == y);
                }
                if y == s.last() {
                    assert(r.push(s.last())[r.len() as int] == y);
                }
            }
            if s.no_duplicates() {
                assert(r.push(s.last()).no_duplicates()) by {
                    assert forall|i: int, j: int|
                        0 <= i < r.len() + 1 && 0 <= j < r.len() + 1 && i != j implies r.push(s.last())[i]
                        != r.push(s.last())[j] by {
                        if i < r.len() && j < r.len() {
                        } else if i < r.len() {
                            assert(r.contains(r[i]));
                        } else {
                            assert(r.contains(r[j]));
                        }
                    }
                }
            }
        }
    }
}

/// Whether `v` holds `x`.
pub fn contains_id(v: &Vec<PeerId>, x: PeerId) -> (r: bool)
    ensures
        r == v@.contains(x),
{
    let mut i: usize = 0;
    while i < v.len()
        invariant
            i <= v@.len(),
            forall|j: int| 0 <= j < i ==> v@[j] != x,
        decreases v@.len() - i,
    {
        if v[i] == x {
            assert(v@[i as int] == x);
            return true;
        }
        i = i + 1;
    }
    false
}

/// A copy of `v` without `x`.
pub fn without_id(v: &Vec<PeerId>, x: PeerId) -> (r: Vec<PeerId>)
    ensures
        r@ == remove_id(v@, x),
{
    let mut out: Vec<PeerId> = Vec::new();
    let mut i: usize = 0;
    assert(v@.take(0) =~= Seq::<PeerId>::empty());
    while i < v.len()
        invariant
            i <= v@.len(),
            out@ == remove_id(v@.take(i as int), x),
        decreases v@.len() - i,
    {
        assert(v@.take(i + 1).drop_last() =~= v@.take(i as int));
        assert(v@.take(i + 1).last() == v@[i as int]);
        if v[i] != x {
            out.push(v[i]);
        }
        i = i + 1;
    }
    assert(v@.take(v@.len() as int) =~= v@);
    out
}

/// Adds `x` to `v` unless it is there already.
pub fn add_id(v: &mut Vec<PeerId>, x: PeerId)
    ensures
        final(v)@ == insert_id(old(v)@, x),
{
    if !contains_id(v, x) {
        v.push(x);
    }
}

/// A peer's published state: a client-chosen tag and the opaque data.
#[derive(Debug)]
pub struct TaggedState {
    pub tag: String,
    pub data: Vec<u8>,
}

/// The mathematical value of a [`TaggedState`].
#[verifier::ext_equal]
pub struct TaggedStateView {
    pub tag: Seq<char>,
    pub data: Seq<u8>,
}

impl View for TaggedState {
    type V = TaggedStateView;

    open spec fn view(&self) -> TaggedStateView {
        TaggedStateView { tag: self.tag@, data: self.data@ }
    }
}

impl TaggedState {
    /// A copy of this state.
    pub fn duplicate(&self) -> (r: TaggedState)
        ensures
            r@ == self@,
    {
        TaggedState { tag: self.tag.clone(), data: self.data.clone() }
    }
}

/// The characters of an optional string.
pub open spec fn opt_chars(o: Option<String>) -> Option<Seq<char>> {
    match o {
        Some(s) => Some(s@),
        None => None,
    }
}

/// The value of an optional state.
pub open spec fn opt_state(o: Option<TaggedState>) -> Option<TaggedStateView> {
    match o {
        Some(s) => Some(s@),
        None => None,
    }
}

/// A link to one session instance: the session's id and the generation
/// it was created with. A session that is purged and later created again
/// under the same id is another instance, with another generation.
#[derive(Debug)]
pub struct SessionRef {
    pub id: String,
    pub generation: u64,
}

/// The mathematical value of a [`SessionRef`].
#[verifier::ext_equal]
pub struct SessionRefView {
    pub id: Seq<char>,
    pub generation: u64,
}

impl View for SessionRef {
    type V = SessionRefView;

    open spec fn view(&self) -> SessionRefView {
        SessionRefView { id: self.id@, generation: self.generation }
    }
}

/// An optional link whose generation, if any, is below `counter`.
pub open spec fn fresh_link(o: Option<SessionRefView>, counter: u64) -> bool {
    match o {
        Some(r) => r.generation < counter,
        None => true,
    }
}

/// The value of an optional session link.
pub open spec fn opt_ref(o: Option<SessionRef>) -> Option<SessionRefView> {
    match o {
        Some(r) => Some(r@),
        None => None,
    }
}

/// A connected client.
#[derive(Debug)]
pub struct Peer {
    pub id: PeerId,
    /// The name the peer logged in with.
    pub username: Option<String>,
    /// The state the peer published last.
    pub state: Option<TaggedState>,
    /// The peers of its session whose current state this peer has not been
    /// sent yet (each at most once).
    pub state_dirty: Vec<PeerId>,
    /// The peer's network address, as text.
    pub addr: String,
    /// The id under which this peer's state is delivered to other peers.
    pub delivery_id: u64,
    /// A pending request for all states of the session with this tag.
    pub full_delivery: Option<String>,
    /// The session instance the peer is associated with.
    pub session: Option<SessionRef>,
    /// Set when the peer is to be disconnected.
    pub terminate: bool,
}

/// The mathematical value of a [`Peer`].
#[verifier::ext_equal]
pub struct PeerView {
    pub id: PeerId,
    pub username: Option<Seq<char>>,
    pub state: Option<TaggedStateView>,
    pub state_dirty: Seq<PeerId>,
    pub addr: Seq<char>,
    pub delivery_id: u64,
    pub full_delivery: Option<Seq<char>>,
    pub session: Option<SessionRefView>,
    pub terminate: bool,
}

impl View for Peer {
    type V = PeerView;

    open spec fn view(&self) -> PeerView {
        PeerView {
            id: self.id,
            username: opt_chars(self.username),
            state: opt_state(self.state),
            state_dirty: self.state_dirty@,
            addr: self.addr@,
            delivery_id: self.delivery_id,
            full_delivery: opt_chars(self.full_delivery),
            session: opt_ref(self.session),
            terminate: self.terminate,
        }
    }
}

impl Peer {
    /// A fresh peer: no name, no state, no session.
    pub fn new(id: PeerId, addr: String, delivery_id: u64) -> (r: Peer)
        ensures
            r@ == (PeerView {
                id,
                username: None,
                state: None,
                state_dirty: Seq::empty(),
                addr: addr@,
                delivery_id,
                full_delivery: None,
                session: None,
                terminate: false,
            }),
    {
        Peer {
            id,
            username: None,
            state: None,
            state_dirty: Vec::new(),
            addr,
            delivery_id,
            full_delivery: None,
            session: None,
            terminate: false,
        }
    }
}

/// A named group of peers that share their states.
#[derive(Debug)]
pub struct Session {
    id: String,
    /// Tells this instance apart from sessions created earlier or later
    /// under the same id.
    generation: u64,
    /// The member peers (each at most once).
    peers: Vec<PeerId>,
}

/// The mathematical value of a [`Session`].
#[verifier::ext_equal]
pub struct SessionView {
    pub id: Seq<char>,
    pub generation: u64,
    pub peers: Seq<PeerId>,
}

impl SessionView {
    /// The link a member peer holds to this session instance.
    pub open spec fn link(self) -> SessionRefView {
        SessionRefView { id: self.id, generation: self.generation }
    }
}

impl View for Session {
    type V = SessionView;

    closed spec fn view(&self) -> SessionView {
        SessionView { id: self.id@, generation: self.generation, peers: self.peers@ }
    }
}

impl Session {
    /// An empty session instance of the given generation.
    pub fn new(id: String, generation: u64) -> (r: Session)
        ensures
            r@ == (SessionView { id: id@, generation, peers: Seq::empty() }),
    {
        Session { id, generation, peers: Vec::new() }
    }

    /// The generation of this session instance.
    pub fn generation(&self) -> (r: u64)
        ensures
            r == self@.generation,
    {
        self.generation
    }

    /// The member peers.
    pub fn peers(&self) -> (r: &Vec<PeerId>)
        ensures
            r@ == self@.peers,
    {
        &self.peers
    }

    /// The session's id.
    pub fn id(&self) -> (r: &str)
        ensures
            r@ == self@.id,
    {
        self.id.as_str()
    }
}

/// An error of the session bookkeeping, with a message for the log.
#[derive(Debug)]
pub struct ServerError {
    pub message: String,
}

impl ServerError {
    pub fn new(message: String) -> (r: Self)
        ensures
            r.message@ == message@,
    {
        Self { message }
    }
}

/// The mathematical value of a [`ServerState`].
#[verifier::ext_equal]
pub struct ServerView {
    pub sessions: Seq<SessionView>,
    pub peers: Seq<PeerView>,
    pub peer_id_counter: u64,
    /// The generation the next created session gets.
    pub session_counter: u64,
    pub manager_url: Option<Seq<char>>,
    pub manager_api_key: Option<Seq<char>>,
}

impl ServerView {
    /// A session with id `sid` exists.
    pub open spec fn has_session(self, sid: Seq<char>) -> bool {
        exists|i: int| 0 <= i < self.sessions.len() && #[trigger] self.sessions[i].id == sid
    }

    /// The position of the session with id `sid`.
    pub open spec fn session_pos(self, sid: Seq<char>) -> int {
        choose|i: int| 0 <= i < self.sessions.len() && #[trigger] self.sessions[i].id == sid
    }

    /// The session with id `sid`.
    pub open spec fn session(self, sid: Seq<char>) -> SessionView {
        self.sessions[self.session_pos(sid)]
    }

    /// A peer with id `pid` is connected.
    pub open spec fn has_peer(self, pid: PeerId) -> bool {
        exists|i: int| 0 <= i < self.peers.len() && #[trigger] self.peers[i].id == pid
    }

    /// The position of the peer with id `pid`.
    pub open spec fn peer_pos(self, pid: PeerId) -> int {
        choose|i: int| 0 <= i < self.peers.len() && #[trigger] self.peers[i].id == pid
    }

    /// The peer with id `pid`.
    pub open spec fn peer(self, pid: PeerId) -> PeerView {
        self.peers[self.peer_pos(pid)]
    }

    /// `r` links to a session instance that still exists.
    pub open spec fn links_live(self, r: SessionRefView) -> bool {
        self.has_session(r.id) && self.session(r.id).generation == r.generation
    }

    /// The id of the session the peer is associated with, if that session
    /// instance still exists (a session created again under the same id
    /// after it was purged is not the peer's).
    pub open spec fn live_session_of(self, pid: PeerId) -> Option<Seq<char>> {
        match self.peer(pid).session {
            Some(r) => if self.links_live(r) {
                Some(r.id)
            } else {
                None
            },
            None => None,
        }
    }

    /// Peer `pid` is a member of some session.
    pub open spec fn is_member(self, pid: PeerId) -> bool {
        exists|i: int| 0 <= i < self.sessions.len() && #[trigger] self.sessions[i].peers.contains(pid)
    }

    /// No two sessions share an id.
    pub open spec fn unique_session_ids(self) -> bool {
        forall|i: int, j: int|
            0 <= i < self.sessions.len() && 0 <= j < self.sessions.len() && i != j
                ==> #[trigger] self.sessions[i].id != #[trigger] self.sessions[j].id
    }

    /// No two peers share an id.
    pub open spec fn unique_peer_ids(self) -> bool {
        forall|i: int, j: int|
            0 <= i < self.peers.len() && 0 <= j < self.peers.len() && i != j
                ==> #[trigger] self.peers[i].id != #[trigger] self.peers[j].id
    }

    /// Every member of every session is a connected peer linked to that
    /// session instance, listed once.
    pub open spec fn members_consistent(self) -> bool {
        &&& forall|i: int| 0 <= i < self.sessions.len() ==> (#[trigger] self.sessions[i]).peers.no_duplicates()
        &&& forall|i: int, m: PeerId|
            0 <= i < self.sessions.len() && #[trigger] self.sessions[i].peers.contains(m) ==> {
                self.has_peer(m) && self.peer(m).session == Some(self.sessions[i].link())
            }
    }

    /// Every generation handed out so far, of a session or of a peer's link,
    /// is below the counter.
    pub open spec fn generations_fresh(self) -> bool {
        &&& forall|i: int| 0 <= i < self.sessions.len() ==> (#[trigger] self.sessions[i]).generation < self.session_counter
        &&& forall|i: int|
            0 <= i < self.peers.len() ==> fresh_link((#[trigger] self.peers[i]).session, self.session_counter)
    }

    /// The invariant of the server state: session ids and peer ids are
    /// unique, no session lists a peer twice, every member of a session is a
    /// connected peer associated with that session instance, no peer is
    /// dirty for itself, and no generation is at or past the counter.
    pub open spec fn wf(self) -> bool {
        &&& self.unique_session_ids()
        &&& self.unique_peer_ids()
        &&& self.members_consistent()
        &&& self.no_self_dirty()
        &&& self.generations_fresh()
    }

    /// No peer has itself among its dirty peers.
    pub open spec fn no_self_dirty(self) -> bool {
        forall|i: int| 0 <= i < self.peers.len() ==> !(#[trigger] self.peers[i]).state_dirty.contains(self.peers[i].id)
    }

    /// After `get_or_create_session(sid)`: the session exists; if it did
    /// not, it is created empty at the end, as a new instance whose
    /// generation is the counter, and the counter moves on.
    pub open spec fn get_or_create_session(self, sid: Seq<char>) -> ServerView {
        if self.has_session(sid) {
            self
        } else {
            ServerView {
                sessions: self.sessions.push(
                    SessionView { id: sid, generation: self.session_counter, peers: Seq::empty() },
                ),
                session_counter: (self.session_counter + 1) as u64,
                ..self
            }
        }
    }

    /// Creating session `sid` does not exhaust the generations.
    pub open spec fn can_create(self, sid: Seq<char>) -> bool {
        self.has_session(sid) || self.session_counter < u64::MAX
    }

    /// After a successful join of peer `pid` to session `sid`: the peer is
    /// linked to the session instance and listed as its last member.
    pub open spec fn join(self, pid: PeerId, sid: Seq<char>) -> ServerView {
        let si = self.session_pos(sid);
        let pi = self.peer_pos(pid);
        ServerView {
            sessions: self.sessions.update(
                si,
                SessionView { peers: self.sessions[si].peers.push(pid), ..self.sessions[si] },
            ),
            peers: self.peers.update(pi, PeerView { session: Some(self.sessions[si].link()), ..self.peers[pi] }),
            ..self
        }
    }

    /// `q` with `pid` no longer dirty, if `q` is one of `members`.
    pub open spec fn forget_dirty(q: PeerView, members: Seq<PeerId>, pid: PeerId) -> PeerView {
        if members.contains(q.id) {
            PeerView { state_dirty: remove_id(q.state_dirty, pid), ..q }
        } else {
            q
        }
    }

    /// After `drop_peer(pid)`: if the peer's session instance still exists,
    /// the peer is no longer its member, no remaining member has the peer
    /// dirty, and the session is removed when that leaves it without
    /// members. Otherwise nothing changes. The peer's own fields do not
    /// change.
    pub open spec fn drop_peer(self, pid: PeerId) -> ServerView {
        match self.live_session_of(pid) {
            None => self,
            Some(sid) => {
                let si = self.session_pos(sid);
                let members = remove_id(self.sessions[si].peers, pid);
                ServerView {
                    sessions: if members.len() == 0 {
                        self.sessions.remove(si)
                    } else {
                        self.sessions.update(si, SessionView { peers: members, ..self.sessions[si] })
                    },
                    peers: self.peers.map_values(|q: PeerView| Self::forget_dirty(q, members, pid)),
                    ..self
                }
            },
        }
    }

    /// After registering the newly connected peer `p`.
    pub open spec fn register(self, p: PeerView) -> ServerView {
        ServerView { peers: self.peers.push(p), ..self }
    }

    /// The state with peer `pid` replaced by `q`.
    pub open spec fn update_peer(self, pid: PeerId, q: PeerView) -> ServerView {
        ServerView { peers: self.peers.update(self.peer_pos(pid), q), ..self }
    }

    /// After `set_username(pid, name)`.
    pub open spec fn with_username(self, pid: PeerId, name: Seq<char>) -> ServerView {
        self.update_peer(pid, PeerView { username: Some(name), ..self.peer(pid) })
    }

    /// After `request_full_delivery(pid, tag)`.
    pub open spec fn with_full_delivery(self, pid: PeerId, tag: Option<Seq<char>>) -> ServerView {
        self.update_peer(pid, PeerView { full_delivery: tag, ..self.peer(pid) })
    }

    /// After `set_dirty(pid, ids)`.
    pub open spec fn with_dirty(self, pid: PeerId, ids: Seq<PeerId>) -> ServerView {
        self.update_peer(pid, PeerView { state_dirty: ids, ..self.peer(pid) })
    }

    /// Peer `pid` marked for disconnection.
    pub open spec fn with_terminate(self, pid: PeerId) -> ServerView {
        self.update_peer(pid, PeerView { terminate: true, ..self.peer(pid) })
    }

    /// Peer `pid` with no associated session.
    pub open spec fn without_session(self, pid: PeerId) -> ServerView {
        self.update_peer(pid, PeerView { session: None, ..self.peer(pid) })
    }

    /// The members among `members` that are connected peers logged in as `name`.
    pub open spec fn named_members(self, members: Seq<PeerId>, name: Seq<char>) -> Seq<PeerId>
        decreases members.len(),
    {
        if members.len() == 0 {
            members
        } else {
            let r = self.named_members(members.drop_last(), name);
            let m = members.last();
            if self.has_peer(m) && self.peer(m).username == Some(name) {
                r.push(m)
            } else {
                r
            }
        }
    }

    /// The members logged in as `name` of the first `k` sessions, session by
    /// session, each session's in member order.
    pub open spec fn named_in_sessions(self, k: int, name: Seq<char>) -> Seq<PeerId>
        decreases k,
    {
        if k <= 0 {
            Seq::empty()
        } else {
            self.named_in_sessions(k - 1, name) + self.named_members(self.sessions[k - 1].peers, name)
        }
    }

    /// One peer dropped because another connection logged in with its name:
    /// marked for disconnection, dropped from its session, left without one.
    pub open spec fn drop_named_peer(self, pid: PeerId) -> ServerView {
        self.with_terminate(pid).drop_peer(pid).without_session(pid)
    }

    /// `drop_named_peer` applied to `ids` in order.
    pub open spec fn drop_all(self, ids: Seq<PeerId>) -> ServerView
        decreases ids.len(),
    {
        if ids.len() == 0 {
            self
        } else {
            self.drop_all(ids.drop_last()).drop_named_peer(ids.last())
        }
    }

    /// After `drop_peers_by_username(name)`: every session member logged in
    /// as `name` is dropped, in session order.
    pub open spec fn drop_peers_by_username(self, name: Seq<char>) -> ServerView {
        self.drop_all(self.named_in_sessions(self.sessions.len() as int, name))
    }

    /// Whether `set_peer_state` accepts a state: its data fits the limit.
    pub open spec fn state_fits(st: TaggedStateView) -> bool {
        st.data.len() <= MAX_STATE_SIZE_BYTES
    }

    /// `q` after peer `pid` of session `members` published state `st`.
    pub open spec fn publish_to(q: PeerView, members: Seq<PeerId>, pid: PeerId, st: TaggedStateView) -> PeerView {
        if q.id == pid {
            PeerView { state: Some(st), ..q }
        } else if members.contains(q.id) {
            PeerView { state_dirty: insert_id(q.state_dirty, pid), ..q }
        } else {
            q
        }
    }

    /// After `set_peer_state(pid, st)` accepted the state: when the peer has a
    /// live session, its state is stored and every other member of the
    /// session has the peer dirty; without a session nothing changes.
    pub open spec fn set_peer_state(self, pid: PeerId, st: TaggedStateView) -> ServerView {
        match self.live_session_of(pid) {
            None => self,
            Some(sid) => ServerView {
                peers: self.peers.map_values(
                    |q: PeerView| Self::publish_to(q, self.session(sid).peers, pid, st),
                ),
                ..self
            },
        }
    }

    /// The ids in `ids` of peers that are still connected, in order.
    pub open spec fn connected_ids(self, ids: Seq<PeerId>) -> Seq<PeerId>
        decreases ids.len(),
    {
        if ids.len() == 0 {
            ids
        } else {
            let r = self.connected_ids(ids.drop_last());
            if self.has_peer(ids.last()) {
                r.push(ids.last())
            } else {
                r
            }
        }
    }

    /// The peers whose states peer `pid` is to be sent: with `all`, every
    /// other member of its session; otherwise its dirty peers that are still
    /// connected. `None` when the peer has no live session.
    pub open spec fn out_of_date_peers(self, pid: PeerId, all: bool) -> Option<Seq<PeerId>> {
        match self.live_session_of(pid) {
            None => None,
            Some(sid) => Some(
                if all {
                    remove_id(self.session(sid).peers, pid)
                } else {
                    self.connected_ids(self.peer(pid).state_dirty)
                },
            ),
        }
    }

    /// After peer `pid` disconnects: dropped from its session, then forgotten.
    pub open spec fn disconnect(self, pid: PeerId) -> ServerView {
        let d = self.drop_peer(pid);
        ServerView { peers: d.peers.remove(d.peer_pos(pid)), ..d }
    }
}

/// With unique session ids, the session at position `i` is the one with its id.
pub proof fn lemma_session_pos(v: ServerView, i: int)
    requires
        v.unique_session_ids(),
        0 <= i < v.sessions.len(),
    ensures
        v.has_session(v.sessions[i].id),
        v.session_pos(v.sessions[i].id) == i,
{
    let sid = v.sessions[i].id;
    assert(v.sessions[i].id == sid);
    let j = v.session_pos(sid);
    assert(v.sessions[j].id == sid);
}

/// With unique peer ids, the peer at position `i` is the one with its id.
pub proof fn lemma_peer_pos(v: ServerView, i: int)
    requires
        v.unique_peer_ids(),
        0 <= i < v.peers.len(),
    ensures
        v.has_peer(v.peers[i].id),
        v.peer_pos(v.peers[i].id) == i,
{
    let pid = v.peers[i].id;
    assert(v.peers[i].id == pid);
    let j = v.peer_pos(pid);
    assert(v.peers[j].id == pid);
}

/// Two states whose peers have the same ids at the same positions agree on
/// who is connected and where.
pub proof fn lemma_same_peer_ids(a: ServerView, b: ServerView, pid: PeerId)
    requires
        a.unique_peer_ids(),
        a.peers.len() == b.peers.len(),
        forall|i: int| 0 <= i < a.peers.len() ==> #[trigger] a.peers[i].id == b.peers[i].id,
    ensures
        b.unique_peer_ids(),
        a.has_peer(pid) == b.has_peer(pid),
        a.has_peer(pid) ==> a.peer_pos(pid) == b.peer_pos(pid),
{
    assert(b.unique_peer_ids()) by {
        assert forall|i: int, j: int|
            0 <= i < b.peers.len() && 0 <= j < b.peers.len() && i != j implies #[trigger] b.peers[i].id
            != #[trigger] b.peers[j].id by {
            assert(a.peers[i].id == b.peers[i].id && a.peers[j].id == b.peers[j].id);
        }
    }
    if a.has_peer(pid) {
        let i = a.peer_pos(pid);
        lemma_peer_pos(a, i);
        assert(b.peers[i].id == pid);
        lemma_peer_pos(b, i);
    }
    if b.has_peer(pid) {
        let i = b.peer_pos(pid);
        assert(a.peers[i].id == pid);
    }
}

/// In a well-formed state, a member of a session is associated with it, so
/// a peer without a live session is a member of none.
pub proof fn lemma_member_has_live_session(v: ServerView, pid: PeerId)
    requires
        v.wf(),
        v.is_member(pid),
    ensures
        v.has_peer(pid),
        v.live_session_of(pid) is Some,
        v.sessions[v.session_pos(v.live_session_of(pid)->Some_0)].peers.contains(pid),
{
    let i = choose|i: int| 0 <= i < v.sessions.len() && #[trigger] v.sessions[i].peers.contains(pid);
    assert(v.peer(pid).session == Some(v.sessions[i].link()));
    lemma_session_pos(v, i);
}

/// `get_or_create_session` keeps the invariant and leaves the session there.
pub proof fn lemma_get_or_create_session_wf(v: ServerView, sid: Seq<char>)
    requires
        v.wf(),
        v.can_create(sid),
    ensures
        v.get_or_create_session(sid).wf(),
        v.get_or_create_session(sid).has_session(sid),
{
    let w = v.get_or_create_session(sid);
    if !v.has_session(sid) {
        let n = v.sessions.len() as int;
        assert(w.sessions[n].id == sid);
        assert forall|i: int, j: int|
            0 <= i < w.sessions.len() && 0 <= j < w.sessions.len() && i != j implies #[trigger] w.sessions[i].id
            != #[trigger] w.sessions[j].id by {
            if i < n && j < n {
                assert(v.sessions[i] == w.sessions[i] && v.sessions[j] == w.sessions[j]);
            } else if i < n {
                assert(v.sessions[i].id != sid);
            } else {
                assert(v.sessions[j].id != sid);
            }
        }
        lemma_same_peer_ids(v, w, 0);
        assert forall|i: int| 0 <= i < w.sessions.len() implies (#[trigger] w.sessions[i]).peers.no_duplicates() by {
            if i < n {
                assert(w.sessions[i] == v.sessions[i]);
            }
        }
        assert forall|i: int, m: PeerId|
            0 <= i < w.sessions.len() && #[trigger] w.sessions[i].peers.contains(m) implies {
                w.has_peer(m) && w.peer(m).session == Some(w.sessions[i].link())
            } by {
            if i < n {
                assert(w.sessions[i] == v.sessions[i]);
                lemma_same_peer_ids(v, w, m);
            }
        }
        assert forall|i: int| 0 <= i < w.sessions.len() implies (#[trigger] w.sessions[i]).generation < w.session_counter by {
            if i < n {
                assert(w.sessions[i] == v.sessions[i]);
            }
        }
        assert forall|i: int|
            0 <= i < w.peers.len() implies fresh_link((#[trigger] w.peers[i]).session, w.session_counter) by {
            assert(w.peers[i] == v.peers[i]);
        }
    }
}

/// A successful join keeps the invariant.
pub proof fn lemma_join_wf(v: ServerView, pid: PeerId, sid: Seq<char>)
    requires
        v.wf(),
        v.has_peer(pid),
        v.has_session(sid),
        v.live_session_of(pid) is None,
    ensures
        v.join(pid, sid).wf(),
        v.join(pid, sid).has_session(sid),
        v.join(pid, sid).session(sid).peers.contains(pid),
{
    let w = v.join(pid, sid);
    let si = v.session_pos(sid);
    let pi = v.peer_pos(pid);
    assert(v.sessions[si].id == sid);
    assert(v.peers[pi].id == pid);
    assert(!v.is_member(pid)) by {
        if v.is_member(pid) {
            lemma_member_has_live_session(v, pid);
        }
    }
    assert(forall|i: int| 0 <= i < w.sessions.len() ==> #[trigger] w.sessions[i].link() == v.sessions[i].link());
    assert(w.unique_session_ids()) by {
        assert forall|i: int, j: int|
            0 <= i < w.sessions.len() && 0 <= j < w.sessions.len() && i != j implies #[trigger] w.sessions[i].id
            != #[trigger] w.sessions[j].id by {
            assert(w.sessions[i].link() == v.sessions[i].link() && w.sessions[j].link() == v.sessions[j].link());
        }
    }
    assert forall|m: PeerId| #[trigger] w.has_peer(m) == v.has_peer(m) && (v.has_peer(m) ==> w.peer_pos(m) == v.peer_pos(m)) by {
        lemma_same_peer_ids(v, w, m);
    }
    lemma_session_pos(w, si);
    assert forall|i: int| 0 <= i < w.sessions.len() implies (#[trigger] w.sessions[i]).generation < w.session_counter by {
        assert(w.sessions[i].link() == v.sessions[i].link());
    }
    assert forall|i: int|
        0 <= i < w.peers.len() implies fresh_link((#[trigger] w.peers[i]).session, w.session_counter) by {
        if i != pi {
            assert(w.peers[i] == v.peers[i]);
        }
    }
    assert(w.sessions[si].peers.contains(pid)) by {
        assert(w.sessions[si].peers[v.sessions[si].peers.len() as int] == pid);
    }
    assert forall|i: int| 0 <= i < w.sessions.len() implies (#[trigger] w.sessions[i]).peers.no_duplicates() by {
        if i == si {
            let old_m = v.sessions[si].peers;
            assert(!old_m.contains(pid));
            assert(old_m.no_duplicates());
            assert forall|a: int, b: int|
                0 <= a < old_m.len() + 1 && 0 <= b < old_m.len() + 1 && a != b implies old_m.push(pid)[a]
                != old_m.push(pid)[b] by {
                if a < old_m.len() && b < old_m.len() {
                } else if a < old_m.len() {
                    assert(old_m.contains(old_m[a]));
                } else {
                    assert(old_m.contains(old_m[b]));
                }
            }
        } else {
            assert(w.sessions[i] == v.sessions[i]);
        }
    }
    assert forall|i: int, m: PeerId|
        0 <= i < w.sessions.len() && #[trigger] w.sessions[i].peers.contains(m) implies {
            w.has_peer(m) && w.peer(m).session == Some(w.sessions[i].link())
        } by {
        lemma_same_peer_ids(v, w, m);
        if m == pid {
            if i != si {
                assert(w.sessions[i] == v.sessions[i]);
                assert(v.is_member(pid));
            }
            assert(w.peer(m) == w.peers[pi]);
        } else {
            if i == si {
                let k = choose|k: int| 0 <= k < w.sessions[i].peers.len() && w.sessions[i].peers[k] == m;
                assert(k < v.sessions[si].peers.len());
                assert(v.sessions[si].peers[k] == m);
                assert(v.sessions[si].peers.contains(m));
            } else {
                assert(w.sessions[i] == v.sessions[i]);
            }
            assert(v.has_peer(m));
            assert(v.peer_pos(m) != pi);
        }
    }
}

/// Dropping a peer keeps the invariant and leaves it a member of no
/// session; peers keep their ids and positions.
pub proof fn lemma_drop_peer_wf(v: ServerView, pid: PeerId)
    requires
        v.wf(),
        v.has_peer(pid),
    ensures
        v.drop_peer(pid).wf(),
        !v.drop_peer(pid).is_member(pid),
        v.drop_peer(pid).peers.len() == v.peers.len(),
        forall|i: int| 0 <= i < v.peers.len() ==> #[trigger] v.drop_peer(pid).peers[i].id == v.peers[i].id,
        forall|i: int| 0 <= i < v.peers.len() ==> #[trigger] v.drop_peer(pid).peers[i].session == v.peers[i].session,
{
    let w = v.drop_peer(pid);
    match v.live_session_of(pid) {
        None => {
            if v.is_member(pid) {
                lemma_member_has_live_session(v, pid);
            }
        },
        Some(sid) => {
            let si = v.session_pos(sid);
            assert(v.sessions[si].id == sid);
            let members = remove_id(v.sessions[si].peers, pid);
            lemma_remove_id(v.sessions[si].peers, pid);
            assert(forall|i: int| 0 <= i < w.peers.len() ==> #[trigger] w.peers[i].id == v.peers[i].id
                && w.peers[i].session == v.peers[i].session);
            assert forall|m: PeerId| #[trigger] w.has_peer(m) == v.has_peer(m) && (v.has_peer(m) ==> w.peer_pos(m) == v.peer_pos(m)) by {
                lemma_same_peer_ids(v, w, m);
            }
            // `old_index(k)` is where session `k` of `w` was in `v`.
            let removed = members.len() == 0;
            assert forall|k: int| #![trigger w.sessions[k]] 0 <= k < w.sessions.len() implies {
                let o = if removed && k >= si { k + 1 } else { k };
                &&& 0 <= o < v.sessions.len()
                &&& w.sessions[k].link() == v.sessions[o].link()
                &&& if o == si {
                    w.sessions[k].peers == members
                } else {
                    w.sessions[k] == v.sessions[o]
                }
            } by {}
            assert(w.unique_session_ids()) by {
                assert forall|i: int, j: int|
                    0 <= i < w.sessions.len() && 0 <= j < w.sessions.len() && i != j implies #[trigger] w.sessions[i].id
                    != #[trigger] w.sessions[j].id by {
                    let oi = if removed && i >= si { i + 1 } else { i };
                    let oj = if removed && j >= si { j + 1 } else { j };
                    assert(v.sessions[oi].id != v.sessions[oj].id);
                }
            }
            assert forall|k: int| 0 <= k < w.sessions.len() implies (#[trigger] w.sessions[k]).peers.no_duplicates() by {
                let o = if removed && k >= si { k + 1 } else { k };
                assert(v.sessions[o].peers.no_duplicates());
            }
            assert forall|k: int, m: PeerId|
                0 <= k < w.sessions.len() && #[trigger] w.sessions[k].peers.contains(m) implies {
                    w.has_peer(m) && w.peer(m).session == Some(w.sessions[k].link())
                } by {
                let o = if removed && k >= si { k + 1 } else { k };
                assert(w.sessions[k].link() == v.sessions[o].link());
                if o == si {
                    assert(v.sessions[o].peers.contains(m));
                } else {
                    assert(w.sessions[k] == v.sessions[o]);
                }
                assert(v.sessions[o].peers.contains(m));
                assert(v.has_peer(m));
                assert(v.peer(m).session == Some(v.sessions[o].link()));
                lemma_same_peer_ids(v, w, m);
                assert(w.peers[v.peer_pos(m)].session == v.peers[v.peer_pos(m)].session);
            }
            assert forall|i: int| 0 <= i < w.peers.len() implies !(#[trigger] w.peers[i]).state_dirty.contains(w.peers[i].id) by {
                lemma_remove_id(v.peers[i].state_dirty, pid);
                assert(!v.peers[i].state_dirty.contains(v.peers[i].id));
            }
            assert forall|k: int| 0 <= k < w.sessions.len() implies (#[trigger] w.sessions[k]).generation < w.session_counter by {
                let o = if removed && k >= si { k + 1 } else { k };
                assert(v.sessions[o].generation < v.session_counter);
            }
            assert forall|i: int|
                0 <= i < w.peers.len() implies fresh_link((#[trigger] w.peers[i]).session, w.session_counter) by {
                assert(w.peers[i].session == v.peers[i].session);
            }
            assert(!w.is_member(pid)) by {
                if w.is_member(pid) {
                    let k = choose|k: int| 0 <= k < w.sessions.len() && #[trigger] w.sessions[k].peers.contains(pid);
                    let o = if removed && k >= si { k + 1 } else { k };
                    if o != si {
                        assert(v.sessions[o].peers.contains(pid));
                        assert(v.peer(pid).session == Some(v.sessions[o].link()));
                        lemma_session_pos(v, o);
                    }
                }
            }
        },
    }
}

/// Replacing one peer by a value with the same id, and the same session
/// unless the peer is a member of none, keeps the invariant; every other
/// peer is unchanged.
pub proof fn lemma_update_peer_wf(v: ServerView, pid: PeerId, q: PeerView)
    requires
        v.wf(),
        v.has_peer(pid),
        q.id == pid,
        q.session == v.peer(pid).session || (q.session is None && !v.is_member(pid)),
        q.state_dirty == v.peer(pid).state_dirty || !q.state_dirty.contains(pid),
    ensures
        v.update_peer(pid, q).wf(),
        v.update_peer(pid, q).peer(pid) == q,
        forall|m: PeerId| #[trigger] v.update_peer(pid, q).has_peer(m) == v.has_peer(m),
        forall|m: PeerId| m != pid && v.has_peer(m) ==> #[trigger] v.update_peer(pid, q).peer(m) == v.peer(m),
{
    let w = v.update_peer(pid, q);
    let pi = v.peer_pos(pid);
    assert(v.peers[pi].id == pid);
    assert(!v.peers[pi].state_dirty.contains(pid));
    assert forall|i: int| 0 <= i < w.peers.len() implies !(#[trigger] w.peers[i]).state_dirty.contains(w.peers[i].id) by {
        if i != pi {
            assert(w.peers[i] == v.peers[i]);
        }
    }
    assert(forall|i: int| 0 <= i < v.peers.len() ==> #[trigger] v.peers[i].id == w.peers[i].id);
    assert forall|m: PeerId| #[trigger] w.has_peer(m) == v.has_peer(m) && (v.has_peer(m) ==> w.peer_pos(m) == v.peer_pos(m)) by {
        lemma_same_peer_ids(v, w, m);
    }
    assert(w.peer(pid) == q);
    assert forall|m: PeerId| m != pid && v.has_peer(m) implies #[trigger] w.peer(m) == v.peer(m) by {
        assert(w.peer_pos(m) == v.peer_pos(m));
        assert(v.peers[v.peer_pos(m)].id == m);
    }
    assert forall|i: int, m: PeerId|
        0 <= i < w.sessions.len() && #[trigger] w.sessions[i].peers.contains(m) implies {
            w.has_peer(m) && w.peer(m).session == Some(w.sessions[i].link())
        } by {
        assert(v.sessions[i].peers.contains(m));
        assert(w.has_peer(m) == v.has_peer(m));
        if m == pid {
            assert(v.is_member(pid));
        } else {
            assert(w.peer(m) == v.peer(m));
        }
    }
    assert forall|i: int|
        0 <= i < w.peers.len() implies fresh_link((#[trigger] w.peers[i]).session, w.session_counter) by {
        if i != pi {
            assert(w.peers[i] == v.peers[i]);
        }
    }
}

/// Dropping one peer that logged in elsewhere keeps the invariant and the
/// set of connected peers.
pub proof fn lemma_drop_named_peer_wf(v: ServerView, pid: PeerId)
    requires
        v.wf(),
        v.has_peer(pid),
    ensures
        v.drop_named_peer(pid).wf(),
        forall|m: PeerId| #[trigger] v.drop_named_peer(pid).has_peer(m) == v.has_peer(m),
        v.drop_named_peer(pid).session_counter == v.session_counter,
{
    let t = v.with_terminate(pid);
    lemma_update_peer_wf(v, pid, PeerView { terminate: true, ..v.peer(pid) });
    let d = t.drop_peer(pid);
    lemma_drop_peer_wf(t, pid);
    assert forall|m: PeerId| #[trigger] d.has_peer(m) == t.has_peer(m) by {
        lemma_same_peer_ids(t, d, m);
    }
    assert(d.has_peer(pid));
    assert(d.peers[d.peer_pos(pid)].id == pid);
    lemma_update_peer_wf(d, pid, PeerView { session: None, ..d.peer(pid) });
}

/// Dropping connected peers one by one keeps the invariant and the set of
/// connected peers.
pub proof fn lemma_drop_all_wf(v: ServerView, ids: Seq<PeerId>)
    requires
        v.wf(),
        forall|i: int| 0 <= i < ids.len() ==> v.has_peer(#[trigger] ids[i]),
    ensures
        v.drop_all(ids).wf(),
        forall|m: PeerId| #[trigger] v.drop_all(ids).has_peer(m) == v.has_peer(m),
        v.drop_all(ids).session_counter == v.session_counter,
    decreases ids.len(),
{
    if ids.len() > 0 {
        let prefix = ids.drop_last();
        assert(forall|i: int| 0 <= i < prefix.len() ==> #[trigger] prefix[i] == ids[i]);
        lemma_drop_all_wf(v, prefix);
        let u = v.drop_all(prefix);
        assert(ids[ids.len() - 1] == ids.last());
        lemma_drop_named_peer_wf(u, ids.last());
    }
}

/// Changing peers' fields other than their ids and sessions keeps the
/// invariant and who is connected where.
pub proof fn lemma_same_shape_wf(v: ServerView, w: ServerView)
    requires
        v.wf(),
        w.sessions == v.sessions,
        w.session_counter == v.session_counter,
        w.peers.len() == v.peers.len(),
        forall|i: int| 0 <= i < v.peers.len() ==> #[trigger] w.peers[i].id == v.peers[i].id && w.peers[i].session
            == v.peers[i].session,
        w.no_self_dirty(),
    ensures
        w.wf(),
        forall|m: PeerId| #[trigger] w.has_peer(m) == v.has_peer(m),
        forall|m: PeerId| v.has_peer(m) ==> #[trigger] w.peer_pos(m) == v.peer_pos(m),
{
    assert forall|m: PeerId| #[trigger] w.has_peer(m) == v.has_peer(m) by {
        lemma_same_peer_ids(v, w, m);
    }
    assert forall|m: PeerId| v.has_peer(m) implies #[trigger] w.peer_pos(m) == v.peer_pos(m) by {
        lemma_same_peer_ids(v, w, m);
    }
    assert forall|i: int, m: PeerId|
        0 <= i < w.sessions.len() && #[trigger] w.sessions[i].peers.contains(m) implies {
            w.has_peer(m) && w.peer(m).session == Some(w.sessions[i].link())
        } by {
        assert(v.sessions[i].peers.contains(m));
        lemma_same_peer_ids(v, w, m);
        assert(w.has_peer(m) == v.has_peer(m));
        assert(w.peer_pos(m) == v.peer_pos(m));
    }
    assert forall|i: int|
        0 <= i < w.peers.len() implies fresh_link((#[trigger] w.peers[i]).session, w.session_counter) by {
        assert(w.peers[i].session == v.peers[i].session);
    }
}

/// Everyone `named_members` lists is a connected peer.
pub proof fn lemma_named_members_connected(v: ServerView, members: Seq<PeerId>, name: Seq<char>)
    ensures
        forall|i: int| 0 <= i < v.named_members(members, name).len() ==> v.has_peer(
            #[trigger] v.named_members(members, name)[i],
        ),
    decreases members.len(),
{
    if members.len() > 0 {
        lemma_named_members_connected(v, members.drop_last(), name);
        let r = v.named_members(members.drop_last(), name);
        let m = members.last();
        if v.has_peer(m) && v.peer(m).username == Some(name) {
            assert forall|i: int| 0 <= i < r.push(m).len() implies v.has_peer(#[trigger] r.push(m)[i]) by {
                if i < r.len() {
                    assert(r.push(m)[i] == r[i]);
                }
            }
        }
    }
}

/// Everyone `named_in_sessions` lists is a connected peer.
pub proof fn lemma_named_in_sessions_connected(v: ServerView, k: int, name: Seq<char>)
    requires
        k <= v.sessions.len(),
    ensures
        forall|i: int| 0 <= i < v.named_in_sessions(k, name).len() ==> v.has_peer(
            #[trigger] v.named_in_sessions(k, name)[i],
        ),
    decreases k,
{
    if k > 0 {
        lemma_named_in_sessions_connected(v, k - 1, name);
        lemma_named_members_connected(v, v.sessions[k - 1].peers, name);
        let a = v.named_in_sessions(k - 1, name);
        let b = v.named_members(v.sessions[k - 1].peers, name);
        assert forall|i: int| 0 <= i < (a + b).len() implies v.has_peer(#[trigger] (a + b)[i]) by {
            if i < a.len() {
                assert((a + b)[i] == a[i]);
            } else {
                assert((a + b)[i] == b[i - a.len()]);
            }
        }
    }
}

// ---------------------------------------------------------------------------
// Laws of the session bookkeeping

/// Law: asking for a session twice gives the same state as asking once, and
/// adds at most one session.
pub proof fn lemma_get_or_create_session_idempotent(v: ServerView, sid: Seq<char>)
    requires
        v.wf(),
        v.can_create(sid),
    ensures
        v.get_or_create_session(sid).get_or_create_session(sid) == v.get_or_create_session(sid),
        v.get_or_create_session(sid).sessions.len() <= v.sessions.len() + 1,
        v.get_or_create_session(sid).peers == v.peers,
{
    lemma_get_or_create_session_wf(v, sid);
}

/// Law: a peer that joined a session is sent every other member's state at
/// its first full delivery: its out-of-date peers are then exactly the
/// members the session had before it joined.
pub proof fn lemma_join_then_all_peers(v: ServerView, pid: PeerId, sid: Seq<char>)
    requires
        v.wf(),
        v.has_peer(pid),
        v.has_session(sid),
        v.live_session_of(pid) is None,
    ensures
        v.join(pid, sid).live_session_of(pid) == Some(sid),
        v.join(pid, sid).out_of_date_peers(pid, true) == Some(v.session(sid).peers),
{
    lemma_join_wf(v, pid, sid);
    let w = v.join(pid, sid);
    let si = v.session_pos(sid);
    let pi = v.peer_pos(pid);
    assert(v.sessions[si].id == sid);
    assert(v.peers[pi].id == pid);
    lemma_session_pos(w, si);
    lemma_peer_pos(w, pi);
    assert(!v.is_member(pid)) by {
        if v.is_member(pid) {
            lemma_member_has_live_session(v, pid);
        }
    }
    let old_m = v.sessions[si].peers;
    assert(!old_m.contains(pid)) by {
        if old_m.contains(pid) {
            assert(v.is_member(pid));
        }
    }
    lemma_remove_id_push(old_m, pid);
}

/// Removing `x` from a sequence without it, with `x` added at the end,
/// gives the sequence back.
pub proof fn lemma_remove_id_push(s: Seq<PeerId>, x: PeerId)
    requires
        !s.contains(x),
    ensures
        remove_id(s.push(x), x) == s,
        remove_id(s, x) == s,
    decreases s.len(),
{
    assert(s.push(x).drop_last() =~= s);
    assert(s.push(x).last() == x);
    if s.len() > 0 {
        assert(!s.drop_last().contains(x)) by {
            if s.drop_last().contains(x) {
                let k = choose|k: int| 0 <= k < s.drop_last().len() && s.drop_last()[k] == x;
                assert(s[k] == x);
            }
        }
        lemma_remove_id_push(s.drop_last(), x);
        assert(s.last() != x) by {
            assert(s[s.len() - 1] == s.last());
        }
        assert(s.drop_last().push(s.last()) =~= s);
    }
    assert(remove_id(s.push(x), x) == remove_id(s, x));
}

/// Law: when the last member of a session is dropped, the session is gone.
pub proof fn lemma_drop_last_member_purges(v: ServerView, pid: PeerId, sid: Seq<char>)
    requires
        v.wf(),
        v.has_peer(pid),
        v.live_session_of(pid) == Some(sid),
        v.session(sid).peers == seq![pid],
    ensures
        !v.drop_peer(pid).has_session(sid),
        v.drop_peer(pid).sessions.len() == v.sessions.len() - 1,
{
    let si = v.session_pos(sid);
    assert(v.sessions[si].id == sid);
    let members = remove_id(v.sessions[si].peers, pid);
    assert(v.sessions[si].peers.drop_last() =~= Seq::<PeerId>::empty());
    assert(v.sessions[si].peers.last() == pid);
    assert(remove_id(Seq::<PeerId>::empty(), pid) == Seq::<PeerId>::empty());
    assert(members =~= Seq::<PeerId>::empty());
    let w = v.drop_peer(pid);
    if w.has_session(sid) {
        let k = w.session_pos(sid);
        let o = if k >= si { k + 1 } else { k };
        assert(w.sessions[k] == v.sessions[o]);
        assert(v.sessions[o].id == v.sessions[si].id);
    }
}

/// Law: creating a session links no peer to it: every connected peer's live
/// session is what it was before, also for a peer whose earlier session of
/// the same id was purged.
pub proof fn lemma_created_session_links_nobody(v: ServerView, sid: Seq<char>, pid: PeerId)
    requires
        v.wf(),
        !v.has_session(sid),
        v.session_counter < u64::MAX,
        v.has_peer(pid),
    ensures
        v.get_or_create_session(sid).live_session_of(pid) == v.live_session_of(pid),
        v.get_or_create_session(sid).live_session_of(pid) != Some(sid),
{
    lemma_get_or_create_session_wf(v, sid);
    let w = v.get_or_create_session(sid);
    let n = v.sessions.len() as int;
    assert(w.peers == v.peers);
    assert(w.peer(pid) == v.peer(pid));
    let pi = v.peer_pos(pid);
    assert(v.peers[pi].id == pid);
    match v.peer(pid).session {
        None => {},
        Some(r) => {
            assert(fresh_link(v.peers[pi].session, v.session_counter));
            if r.id == sid {
                lemma_session_pos(w, n);
                assert(w.sessions[n].id == sid);
                assert(w.session(sid).generation == v.session_counter);
            } else {
                assert(w.has_session(r.id) == v.has_session(r.id)) by {
                    if w.has_session(r.id) {
                        let k = w.session_pos(r.id);
                        assert(k != n);
                        assert(v.sessions[k] == w.sessions[k]);
                    }
                    if v.has_session(r.id) {
                        let k = v.session_pos(r.id);
                        assert(w.sessions[k] == v.sessions[k]);
                    }
                }
                if v.has_session(r.id) {
                    let k = v.session_pos(r.id);
                    assert(v.sessions[k].id == r.id);
                    assert(w.sessions[k] == v.sessions[k]);
                    lemma_session_pos(w, k);
                }
            }
        },
    }
}

/// Law: once a peer's session was purged, a session created again under the
/// same id is not the peer's: the peer is no member of it and can join it,
/// dropping the peer changes nothing, and it has no out-of-date peers until
/// it joins.
pub proof fn lemma_purged_session_not_revived(v: ServerView, pid: PeerId, sid: Seq<char>, all: bool)
    requires
        v.wf(),
        v.has_peer(pid),
        v.live_session_of(pid) == Some(sid),
        v.session(sid).peers == seq![pid],
        v.session_counter < u64::MAX,
    ensures
        ({
            let w = v.drop_peer(pid).get_or_create_session(sid);
            &&& w.wf()
            &&& w.has_session(sid)
            &&& w.has_peer(pid)
            &&& w.live_session_of(pid) is None
            &&& w.drop_peer(pid) == w
            &&& w.out_of_date_peers(pid, all) is None
            &&& w.join(pid, sid).live_session_of(pid) == Some(sid)
        }),
{
    let d = v.drop_peer(pid);
    lemma_drop_last_member_purges(v, pid, sid);
    lemma_drop_peer_wf(v, pid);
    lemma_same_peer_ids(v, d, pid);
    let pi = v.peer_pos(pid);
    assert(v.peers[pi].id == pid);
    assert(d.peer(pid).session == v.peer(pid).session);
    assert(d.live_session_of(pid) is None);
    lemma_created_session_links_nobody(d, sid, pid);
    lemma_get_or_create_session_wf(d, sid);
    let w = d.get_or_create_session(sid);
    assert(w.peers == d.peers);
    lemma_join_then_all_peers(w, pid, sid);
}

/// Law: after a peer published an accepted state, the peer holds that state
/// and every other member of its session has it dirty (it is to be sent to
/// them); nobody else's dirty peers change.
pub proof fn lemma_publish_marks_dirty(v: ServerView, pid: PeerId, st: TaggedStateView, sid: Seq<char>)
    requires
        v.wf(),
        v.has_peer(pid),
        v.live_session_of(pid) == Some(sid),
    ensures
        v.set_peer_state(pid, st).peer(pid).state == Some(st),
        forall|m: PeerId|
            #![trigger v.set_peer_state(pid, st).peer(m)]
            v.session(sid).peers.contains(m) && m != pid ==> v.set_peer_state(pid, st).peer(m).state_dirty.contains(
                pid,
            ),
        forall|m: PeerId|
            #![trigger v.set_peer_state(pid, st).peer(m)]
            v.has_peer(m) && !v.session(sid).peers.contains(m) && m != pid ==> v.set_peer_state(
                pid,
                st,
            ).peer(m) == v.peer(m),
{
    let w = v.set_peer_state(pid, st);
    assert forall|m: PeerId| #[trigger] w.has_peer(m) == v.has_peer(m) && (v.has_peer(m) ==> w.peer_pos(m) == v.peer_pos(m)) by {
        lemma_same_peer_ids(v, w, m);
    }
    assert(v.peers[v.peer_pos(pid)].id == pid);
    assert(w.has_peer(pid));
    assert forall|m: PeerId|
        #![trigger w.peer(m)]
        v.session(sid).peers.contains(m) && m != pid implies w.peer(m).state_dirty.contains(pid) by {
        let si = v.session_pos(sid);
        assert(v.sessions[si].id == sid);
        assert(v.sessions[si].peers.contains(m));
        assert(w.has_peer(m));
        assert(v.peers[v.peer_pos(m)].id == m);
        let d = v.peer(m).state_dirty;
        if !d.contains(pid) {
            assert(d.push(pid)[d.len() as int] == pid);
        }
    }
    assert forall|m: PeerId|
        #![trigger w.peer(m)]
        v.has_peer(m) && !v.session(sid).peers.contains(m) && m != pid implies w.peer(m) == v.peer(m) by {
        assert(w.has_peer(m));
        assert(v.peers[v.peer_pos(m)].id == m);
    }
}

/// Publishing a state keeps the invariant and who is connected.
pub proof fn lemma_publish_keeps_peers(v: ServerView, pid: PeerId, st: TaggedStateView)
    requires
        v.wf(),
        v.has_peer(pid),
    ensures
        v.set_peer_state(pid, st).wf(),
        forall|m: PeerId| #[trigger] v.set_peer_state(pid, st).has_peer(m) == v.has_peer(m),
{
    let w = v.set_peer_state(pid, st);
    assert(forall|i: int| 0 <= i < v.peers.len() ==> #[trigger] w.peers[i].id == v.peers[i].id && w.peers[i].session
        == v.peers[i].session);
    assert forall|i: int| 0 <= i < w.peers.len() implies !(#[trigger] w.peers[i]).state_dirty.contains(w.peers[i].id) by {
        assert(!v.peers[i].state_dirty.contains(v.peers[i].id));
        let d = v.peers[i].state_dirty;
        if w.peers[i].state_dirty != d {
            assert(w.peers[i].state_dirty == d.push(pid));
            assert(v.peers[i].id != pid);
            if d.push(pid).contains(v.peers[i].id) {
                let k = choose|k: int| 0 <= k < d.len() + 1 && d.push(pid)[k] == v.peers[i].id;
                assert(k < d.len());
                assert(d[k] == v.peers[i].id);
            }
        }
    }
    lemma_same_shape_wf(v, w);
}

/// Ids of connected peers are all kept by `connected_ids`.
pub proof fn lemma_connected_ids_all(v: ServerView, ids: Seq<PeerId>)
    requires
        forall|i: int| 0 <= i < ids.len() ==> v.has_peer(#[trigger] ids[i]),
    ensures
        v.connected_ids(ids) == ids,
    decreases ids.len(),
{
    if ids.len() > 0 {
        let prefix = ids.drop_last();
        assert(forall|i: int| 0 <= i < prefix.len() ==> #[trigger] prefix[i] == ids[i]);
        lemma_connected_ids_all(v, prefix);
        assert(v.has_peer(ids[ids.len() - 1]));
        assert(prefix.push(ids.last()) =~= ids);
    }
}

/// `connected_ids` keeps only ids it was given.
pub proof fn lemma_connected_ids_subset(v: ServerView, ids: Seq<PeerId>, x: PeerId)
    ensures
        v.connected_ids(ids).contains(x) ==> ids.contains(x),
    decreases ids.len(),
{
    if ids.len() > 0 {
        let prefix = ids.drop_last();
        lemma_connected_ids_subset(v, prefix, x);
        let r = v.connected_ids(prefix);
        if v.connected_ids(ids).contains(x) {
            if r.contains(x) {
                let k = choose|k: int| 0 <= k < prefix.len() && prefix[k] == x;
                assert(ids[k] == x);
            } else {
                let k = choose|k: int| 0 <= k < v.connected_ids(ids).len() && v.connected_ids(ids)[k] == x;
                assert(k == r.len());
                assert(ids[ids.len() - 1] == x);
            }
        }
    }
}

/// Law: a peer is never among the peers whose states it is to be sent, so
/// no peer is ever sent its own state.
pub proof fn lemma_out_of_date_excludes_self(v: ServerView, pid: PeerId, all: bool)
    requires
        v.wf(),
        v.has_peer(pid),
    ensures
        v.out_of_date_peers(pid, all) matches Some(ids) ==> !ids.contains(pid),
{
    assert(v.peers[v.peer_pos(pid)].id == pid);
    match v.live_session_of(pid) {
        None => {},
        Some(sid) => {
            lemma_remove_id(v.session(sid).peers, pid);
            lemma_connected_ids_subset(v, v.peer(pid).state_dirty, pid);
        },
    }
}

/// Law: right after its dirty peers are cleared, a peer with a session has
/// no state to be sent in an incremental delivery.
pub proof fn lemma_clear_dirty_then_nothing_out_of_date(v: ServerView, pid: PeerId)
    requires
        v.wf(),
        v.has_peer(pid),
        v.live_session_of(pid) is Some,
    ensures
        v.with_dirty(pid, Seq::empty()).out_of_date_peers(pid, false) == Some(Seq::<PeerId>::empty()),
{
    let q = PeerView { state_dirty: Seq::empty(), ..v.peer(pid) };
    assert(v.peers[v.peer_pos(pid)].id == pid);
    lemma_update_peer_wf(v, pid, q);
    let w = v.with_dirty(pid, Seq::empty());
    assert(w.sessions == v.sessions);
}

/// What dropping one named peer does to memberships and names: nobody new
/// becomes a member, the dropped peer is a member of nothing, and nobody's
/// name changes.
proof fn lemma_drop_named_peer_members(v: ServerView, pid: PeerId)
    requires
        v.wf(),
        v.has_peer(pid),
    ensures
        forall|m: PeerId| #[trigger] v.drop_named_peer(pid).is_member(m) ==> v.is_member(m) && m != pid,
        forall|m: PeerId| v.has_peer(m) ==> #[trigger] v.drop_named_peer(pid).peer(m).username == v.peer(m).username,
{
    let t = v.with_terminate(pid);
    lemma_update_peer_wf(v, pid, PeerView { terminate: true, ..v.peer(pid) });
    assert(v.peers[v.peer_pos(pid)].id == pid);
    let d = t.drop_peer(pid);
    lemma_drop_peer_wf(t, pid);
    assert forall|m: PeerId| #[trigger] d.has_peer(m) == t.has_peer(m) && (t.has_peer(m) ==> d.peer_pos(m) == t.peer_pos(m)) by {
        lemma_same_peer_ids(t, d, m);
    }
    assert(d.has_peer(pid));
    assert(d.peers[d.peer_pos(pid)].id == pid);
    let w = d.without_session(pid);
    lemma_update_peer_wf(d, pid, PeerView { session: None, ..d.peer(pid) });
    assert forall|m: PeerId| #[trigger] w.is_member(m) implies v.is_member(m) && m != pid by {
        let k = choose|k: int| 0 <= k < w.sessions.len() && #[trigger] w.sessions[k].peers.contains(m);
        assert(d.sessions[k].peers.contains(m));
        assert(d.is_member(m));
        match t.live_session_of(pid) {
            None => {
                assert(t.sessions[k].peers.contains(m));
            },
            Some(sid) => {
                let si = t.session_pos(sid);
                let members = remove_id(t.sessions[si].peers, pid);
                lemma_remove_id(t.sessions[si].peers, pid);
                let o = if members.len() == 0 && k >= si { k + 1 } else { k };
                if o == si {
                    assert(d.sessions[k].peers == members);
                    assert(t.sessions[si].peers.contains(m));
                    assert(t.sessions[o].peers.contains(m));
                } else {
                    assert(d.sessions[k] == t.sessions[o]);
                }
                assert(t.sessions[o].peers.contains(m));
            },
        }
        assert(t.sessions == v.sessions);
    }
    assert forall|m: PeerId| v.has_peer(m) implies #[trigger] w.peer(m).username == v.peer(m).username by {
        assert(v.peers[v.peer_pos(m)].id == m);
        if m != pid {
            assert(t.peer(m) == v.peer(m));
            assert(t.has_peer(m));
            lemma_same_peer_ids(t, d, m);
            assert(d.peer_pos(m) == t.peer_pos(m));
            assert(t.peers[t.peer_pos(m)].id == m);
            assert(d.peers[d.peer_pos(m)].username == t.peers[t.peer_pos(m)].username);
            assert(w.peer(m) == d.peer(m));
        } else {
            lemma_same_peer_ids(t, d, pid);
            assert(d.peers[d.peer_pos(pid)].username == t.peers[t.peer_pos(pid)].username);
        }
    }
}

/// What dropping named peers does to memberships and names.
proof fn lemma_drop_all_members(v: ServerView, ids: Seq<PeerId>)
    requires
        v.wf(),
        forall|i: int| 0 <= i < ids.len() ==> v.has_peer(#[trigger] ids[i]),
    ensures
        forall|m: PeerId| #[trigger] v.drop_all(ids).is_member(m) ==> v.is_member(m) && !ids.contains(m),
        forall|m: PeerId| v.has_peer(m) ==> #[trigger] v.drop_all(ids).peer(m).username == v.peer(m).username,
    decreases ids.len(),
{
    if ids.len() > 0 {
        let prefix = ids.drop_last();
        assert(forall|i: int| 0 <= i < prefix.len() ==> #[trigger] prefix[i] == ids[i]);
        lemma_drop_all_members(v, prefix);
        lemma_drop_all_wf(v, prefix);
        let u = v.drop_all(prefix);
        let last = ids.last();
        assert(ids[ids.len() - 1] == last);
        lemma_drop_named_peer_members(u, last);
        assert forall|m: PeerId| #[trigger] v.drop_all(ids).is_member(m) implies v.is_member(m) && !ids.contains(m) by {
            assert(u.is_member(m) && m != last);
            if ids.contains(m) {
                let k = choose|k: int| 0 <= k < ids.len() && ids[k] == m;
                if k < ids.len() - 1 {
                    assert(prefix[k] == m);
                }
            }
        }
    }
}

/// Every session member logged in as `name` is listed by `named_members`.
proof fn lemma_named_members_complete(v: ServerView, members: Seq<PeerId>, name: Seq<char>, m: PeerId)
    requires
        members.contains(m),
        v.has_peer(m),
        v.peer(m).username == Some(name),
    ensures
        v.named_members(members, name).contains(m),
    decreases members.len(),
{
    let r = v.named_members(members.drop_last(), name);
    if members.last() == m {
        assert(r.push(m)[r.len() as int] == m);
    } else {
        let k = choose|k: int| 0 <= k < members.len() && members[k] == m;
        assert(members.drop_last()[k] == m);
        lemma_named_members_complete(v, members.drop_last(), name, m);
        let j = choose|j: int| 0 <= j < r.len() && r[j] == m;
        if v.has_peer(members.last()) && v.peer(members.last()).username == Some(name) {
            assert(r.push(members.last())[j] == m);
        }
    }
}

/// Every session member logged in as `name` is listed by `named_in_sessions`.
proof fn lemma_named_in_sessions_complete(v: ServerView, k: int, name: Seq<char>, i: int, m: PeerId)
    requires
        0 <= i < k <= v.sessions.len(),
        v.sessions[i].peers.contains(m),
        v.has_peer(m),
        v.peer(m).username == Some(name),
    ensures
        v.named_in_sessions(k, name).contains(m),
    decreases k,
{
    let a = v.named_in_sessions(k - 1, name);
    let b = v.named_members(v.sessions[k - 1].peers, name);
    if i == k - 1 {
        lemma_named_members_complete(v, v.sessions[k - 1].peers, name, m);
        let j = choose|j: int| 0 <= j < b.len() && b[j] == m;
        assert((a + b)[a.len() + j] == m);
    } else {
        lemma_named_in_sessions_complete(v, k - 1, name, i, m);
        let j = choose|j: int| 0 <= j < a.len() && a[j] == m;
        assert((a + b)[j] == m);
    }
}

/// Law: after dropping the peers logged in as `name`, no session has a
/// member logged in as `name`, and no new member appeared anywhere.
pub proof fn lemma_drop_by_username_clears(v: ServerView, name: Seq<char>)
    requires
        v.wf(),
    ensures
        v.drop_peers_by_username(name).wf(),
        forall|m: PeerId| #[trigger] v.drop_peers_by_username(name).is_member(m) ==> v.is_member(m)
            && v.drop_peers_by_username(name).peer(m).username != Some(name),
{
    let ids = v.named_in_sessions(v.sessions.len() as int, name);
    lemma_named_in_sessions_connected(v, v.sessions.len() as int, name);
    lemma_drop_all_wf(v, ids);
    lemma_drop_all_members(v, ids);
    let w = v.drop_all(ids);
    assert forall|m: PeerId| #[trigger] w.is_member(m) implies v.is_member(m) && w.peer(m).username != Some(name) by {
        assert(v.is_member(m) && !ids.contains(m));
        let i = choose|i: int| 0 <= i < v.sessions.len() && #[trigger] v.sessions[i].peers.contains(m);
        assert(v.has_peer(m));
        assert(w.peer(m).username == v.peer(m).username);
        if v.peer(m).username == Some(name) {
            lemma_named_in_sessions_complete(v, v.sessions.len() as int, name, i, m);
        }
    }
}

/// Everyone `named_members` lists is logged in as exactly `name`.
proof fn lemma_named_members_named(v: ServerView, members: Seq<PeerId>, name: Seq<char>)
    ensures
        forall|i: int|
            0 <= i < v.named_members(members, name).len() ==> v.peer(#[trigger] v.named_members(members, name)[i]).username
                == Some(name),
    decreases members.len(),
{
    if members.len() > 0 {
        lemma_named_members_named(v, members.drop_last(), name);
        let r = v.named_members(members.drop_last(), name);
        let m = members.last();
        if v.has_peer(m) && v.peer(m).username == Some(name) {
            assert forall|i: int| 0 <= i < r.push(m).len() implies v.peer(#[trigger] r.push(m)[i]).username == Some(name) by {
                if i < r.len() {
                    assert(r.push(m)[i] == r[i]);
                }
            }
        }
    }
}

/// Everyone `named_in_sessions` lists is logged in as exactly `name`.
proof fn lemma_named_in_sessions_named(v: ServerView, k: int, name: Seq<char>)
    requires
        k <= v.sessions.len(),
    ensures
        forall|i: int|
            0 <= i < v.named_in_sessions(k, name).len() ==> v.peer(#[trigger] v.named_in_sessions(k, name)[i]).username
                == Some(name),
    decreases k,
{
    if k > 0 {
        lemma_named_in_sessions_named(v, k - 1, name);
        lemma_named_members_named(v, v.sessions[k - 1].peers, name);
        let a = v.named_in_sessions(k - 1, name);
        let b = v.named_members(v.sessions[k - 1].peers, name);
        assert forall|i: int| 0 <= i < (a + b).len() implies v.peer(#[trigger] (a + b)[i]).username == Some(name) by {
            if i < a.len() {
                assert((a + b)[i] == a[i]);
            } else {
                assert((a + b)[i] == b[i - a.len()]);
            }
        }
    }
}

/// Dropping peer `pid` because another connection logged in with its name
/// leaves every other connected peer as it was, but for its dirty peers:
/// same name, same session link, same termination mark, and a member still
/// if it was one.
proof fn lemma_drop_named_peer_keeps_others(v: ServerView, pid: PeerId, m: PeerId)
    requires
        v.wf(),
        v.has_peer(pid),
        v.has_peer(m),
        m != pid,
    ensures
        v.drop_named_peer(pid).has_peer(m),
        v.drop_named_peer(pid).peer(m).username == v.peer(m).username,
        v.drop_named_peer(pid).peer(m).session == v.peer(m).session,
        v.drop_named_peer(pid).peer(m).terminate == v.peer(m).terminate,
        v.is_member(m) ==> v.drop_named_peer(pid).is_member(m),
{
    let t = v.with_terminate(pid);
    assert(v.peers[v.peer_pos(pid)].id == pid);
    lemma_update_peer_wf(v, pid, PeerView { terminate: true, ..v.peer(pid) });
    assert(t.sessions == v.sessions);
    let d = t.drop_peer(pid);
    lemma_drop_peer_wf(t, pid);
    lemma_same_peer_ids(t, d, m);
    lemma_same_peer_ids(t, d, pid);
    let i = t.peer_pos(m);
    assert(t.peers[i].id == m);
    assert(d.peers[i].username == t.peers[i].username && d.peers[i].terminate == t.peers[i].terminate);
    if t.is_member(m) {
        let k = choose|k: int| 0 <= k < t.sessions.len() && #[trigger] t.sessions[k].peers.contains(m);
        match t.live_session_of(pid) {
            None => {
                assert(d.sessions[k].peers.contains(m));
            },
            Some(sid) => {
                let si = t.session_pos(sid);
                let members = remove_id(t.sessions[si].peers, pid);
                lemma_remove_id(t.sessions[si].peers, pid);
                if k == si {
                    assert(members.contains(m));
                    assert(members.len() != 0);
                    assert(d.sessions[si].peers == members);
                    assert(d.sessions[si].peers.contains(m));
                } else if members.len() == 0 {
                    let k2 = if k > si { k - 1 } else { k };
                    assert(d.sessions[k2] == t.sessions[k]);
                    assert(d.sessions[k2].peers.contains(m));
                } else {
                    assert(d.sessions[k] == t.sessions[k]);
                    assert(d.sessions[k].peers.contains(m));
                }
            },
        }
    }
    assert(d.peers[d.peer_pos(pid)].id == pid);
    lemma_update_peer_wf(d, pid, PeerView { session: None, ..d.peer(pid) });
}

/// Dropping the connected peers `ids` one by one leaves every connected peer
/// not among them as it was, but for its dirty peers.
proof fn lemma_drop_all_keeps_others(v: ServerView, ids: Seq<PeerId>, m: PeerId)
    requires
        v.wf(),
        forall|i: int| 0 <= i < ids.len() ==> v.has_peer(#[trigger] ids[i]),
        v.has_peer(m),
        !ids.contains(m),
    ensures
        v.drop_all(ids).has_peer(m),
        v.drop_all(ids).peer(m).username == v.peer(m).username,
        v.drop_all(ids).peer(m).session == v.peer(m).session,
        v.drop_all(ids).peer(m).terminate == v.peer(m).terminate,
        v.is_member(m) ==> v.drop_all(ids).is_member(m),
    decreases ids.len(),
{
    if ids.len() > 0 {
        let prefix = ids.drop_last();
        assert(forall|i: int| 0 <= i < prefix.len() ==> #[trigger] prefix[i] == ids[i]);
        assert(!prefix.contains(m)) by {
            if prefix.contains(m) {
                let k = choose|k: int| 0 <= k < prefix.len() && prefix[k] == m;
                assert(ids[k] == m);
            }
        }
        lemma_drop_all_keeps_others(v, prefix, m);
        lemma_drop_all_wf(v, prefix);
        let last = ids.last();
        assert(ids[ids.len() - 1] == last);
        assert(last != m);
        lemma_drop_named_peer_keeps_others(v.drop_all(prefix), last, m);
    }
}

/// Law: dropping the peers logged in as `name` touches nobody whose user
/// name is not exactly `name`: such a peer stays connected under its name,
/// keeps its session link and its termination mark, and stays a member of
/// its session if it was one.
pub proof fn lemma_drop_by_username_spares_others(v: ServerView, name: Seq<char>, m: PeerId)
    requires
        v.wf(),
        v.has_peer(m),
        v.peer(m).username != Some(name),
    ensures
        v.drop_peers_by_username(name).has_peer(m),
        v.drop_peers_by_username(name).peer(m).username == v.peer(m).username,
        v.drop_peers_by_username(name).peer(m).session == v.peer(m).session,
        v.drop_peers_by_username(name).peer(m).terminate == v.peer(m).terminate,
        v.is_member(m) ==> v.drop_peers_by_username(name).is_member(m),
{
    let ids = v.named_in_sessions(v.sessions.len() as int, name);
    lemma_named_in_sessions_connected(v, v.sessions.len() as int, name);
    lemma_named_in_sessions_named(v, v.sessions.len() as int, name);
    assert(!ids.contains(m)) by {
        if ids.contains(m) {
            let k = choose|k: int| 0 <= k < ids.len() && ids[k] == m;
            assert(v.peer(ids[k]).username == Some(name));
        }
    }
    lemma_drop_all_keeps_others(v, ids, m);
}

/// Law: publishing a state never takes a peer out of anyone's dirty peers:
/// every peer that was dirty for a connected peer before is still dirty
/// after, so no pending update is lost.
pub proof fn lemma_publish_keeps_dirty(v: ServerView, pid: PeerId, st: TaggedStateView, m: PeerId, x: PeerId)
    requires
        v.wf(),
        v.has_peer(pid),
        v.has_peer(m),
        v.peer(m).state_dirty.contains(x),
    ensures
        v.set_peer_state(pid, st).has_peer(m),
        v.set_peer_state(pid, st).peer(m).state_dirty.contains(x),
{
    let w = v.set_peer_state(pid, st);
    lemma_same_peer_ids(v, w, m);
    let i = v.peer_pos(m);
    assert(v.peers[i].id == m);
    let d = v.peers[i].state_dirty;
    let k = choose|k: int| 0 <= k < d.len() && d[k] == x;
    if w.peers[i].state_dirty != d {
        assert(w.peers[i].state_dirty == d.push(pid));
        assert(d.push(pid)[k] == x);
    }
}

/// The state of the whole server: its sessions, its connected peers and the
/// manager it asks about logins.
pub struct ServerState {
    sessions: Vec<Session>,
    peers: Vec<Peer>,
    pub peer_id_counter: u64,
    session_counter: u64,
    pub manager_url: Option<String>,
    pub manager_api_key: Option<String>,
}

impl View for ServerState {
    type V = ServerView;

    closed spec fn view(&self) -> ServerView {
        ServerView {
            sessions: self.sessions@.map_values(|s: Session| s@),
            peers: self.peers@.map_values(|p: Peer| p@),
            peer_id_counter: self.peer_id_counter,
            session_counter: self.session_counter,
            manager_url: opt_chars(self.manager_url),
            manager_api_key: opt_chars(self.manager_api_key),
        }
    }
}

impl ServerState {
    /// A server with no sessions and no peers.
    pub fn new(manager_url: Option<String>, manager_api_key: Option<String>) -> (r: Self)
        ensures
            r@.wf(),
            r@.sessions == Seq::<SessionView>::empty(),
            r@.peers == Seq::<PeerView>::empty(),
            r@.peer_id_counter == 0,
            r@.session_counter == 0,
            r@.manager_url == opt_chars(manager_url),
            r@.manager_api_key == opt_chars(manager_api_key),
    {
        let r = Self {
            sessions: Vec::new(),
            peers: Vec::new(),
            peer_id_counter: 0,
            session_counter: 0,
            manager_url,
            manager_api_key,
        };
        assert(r@.sessions =~= Seq::<SessionView>::empty());
        assert(r@.peers =~= Seq::<PeerView>::empty());
        r
    }

    /// The position of the session with id `sid`, if there is one.
    fn find_session(&self, sid: &String) -> (r: Option<usize>)
        requires
            self@.wf(),
        ensures
            r is None <==> !self@.has_session(sid@),
            r matches Some(i) ==> i < self@.sessions.len() && self@.sessions[i as int].id == sid@
                && self@.session_pos(sid@) == i,
    {
        let mut i: usize = 0;
        while i < self.sessions.len()
            invariant
                i <= self.sessions@.len(),
                self@.wf(),
                forall|j: int| 0 <= j < i ==> self@.sessions[j].id != sid@,
            decreases self.sessions@.len() - i,
        {
            assert(self@.sessions[i as int] == self.sessions@[i as int]@);
            if self.sessions[i].id == *sid {
                assert(self@.sessions[i as int].id == sid@);
                assert(self@.has_session(sid@));
                return Some(i);
            }
            i = i + 1;
        }
        None
    }

    /// The position of the peer with id `pid`, if it is connected.
    fn find_peer(&self, pid: PeerId) -> (r: Option<usize>)
        requires
            self@.wf(),
        ensures
            r is None <==> !self@.has_peer(pid),
            r matches Some(i) ==> i < self@.peers.len() && self@.peers[i as int].id == pid
                && self@.peer_pos(pid) == i,
    {
        let mut i: usize = 0;
        while i < self.peers.len()
            invariant
                i <= self.peers@.len(),
                self@.wf(),
                forall|j: int| 0 <= j < i ==> self@.peers[j].id != pid,
            decreases self.peers@.len() - i,
        {
            assert(self@.peers[i as int] == self.peers@[i as int]@);
            if self.peers[i].id == pid {
                assert(self@.peers[i as int].id == pid);
                assert(self@.has_peer(pid));
                return Some(i);
            }
            i = i + 1;
        }
        None
    }

    /// The number of sessions.
    pub fn session_count(&self) -> (r: usize)
        ensures
            r == self@.sessions.len(),
    {
        self.sessions.len()
    }

    /// The session at position `i`.
    pub fn session_at(&self, i: usize) -> (r: &Session)
        requires
            i < self@.sessions.len(),
        ensures
            r@ == self@.sessions[i as int],
    {
        &self.sessions[i]
    }

    /// The session with id `sid`, if it exists.
    pub fn session(&self, sid: &str) -> (r: Option<&Session>)
        requires
            self@.wf(),
        ensures
            r is None <==> !self@.has_session(sid@),
            r matches Some(s) ==> s@ == self@.session(sid@),
    {
        let key = String::from_str(sid);
        match self.find_session(&key) {
            Some(i) => Some(&self.sessions[i]),
            None => None,
        }
    }

    /// The connected peer with id `pid`, if there is one.
    pub fn peer(&self, pid: PeerId) -> (r: Option<&Peer>)
        requires
            self@.wf(),
        ensures
            r is None <==> !self@.has_peer(pid),
            r matches Some(p) ==> p@ == self@.peer(pid),
    {
        match self.find_peer(pid) {
            Some(i) => Some(&self.peers[i]),
            None => None,
        }
    }
}

/// How a peer is named in log and error texts: its address and id, and its
/// user name once it has one.
pub open spec fn peer_text(p: PeerView) -> Seq<char> {
    match p.username {
        Some(u) => p.addr + "(#"@ + decimal(p.id as nat) + " `"@ + u + "`)"@,
        None => p.addr + "(#"@ + decimal(p.id as nat) + ")"@,
    }
}

/// How a session is named in log and error texts: its id and its size.
pub open spec fn session_text(s: SessionView) -> Seq<char> {
    "`"@ + s.id + "`(size "@ + decimal(s.peers.len()) + ")"@
}

/// The error text of a join refused because the peer already has a session.
pub open spec fn already_associated_text(p: PeerView, s: SessionView) -> Seq<char> {
    "peer "@ + peer_text(p) + " is already associated with session "@ + session_text(s)
}

/// The error text for a peer that has no session.
pub open spec fn no_session_text(p: PeerView) -> Seq<char> {
    peer_text(p) + " has no associated session"@
}

impl Peer {
    /// The peer's name in log and error texts, see [`peer_text`].
    pub fn describe(&self) -> (r: String)
        ensures
            r@ == peer_text(self@),
    {
        let id = u64_to_decimal(self.id);
        let head = concat(concat(self.addr.as_str(), "(#").as_str(), id.as_str());
        match &self.username {
            Some(u) => concat(concat(concat(head.as_str(), " `").as_str(), u.as_str()).as_str(), "`)"),
            None => concat(head.as_str(), ")"),
        }
    }
}

impl Session {
    /// The session's name in log and error texts, see [`session_text`].
    pub fn describe(&self) -> (r: String)
        ensures
            r@ == session_text(self@),
    {
        let size = u64_to_decimal(self.peers.len() as u64);
        let head = concat(concat("`", self.id.as_str()).as_str(), "`(size ");
        concat(concat(head.as_str(), size.as_str()).as_str(), ")")
    }
}

/// Removing a peer that is a member of no session keeps the invariant, and
/// every other peer keeps its value.
pub proof fn lemma_unregister_wf(v: ServerView, pid: PeerId)
    requires
        v.wf(),
        v.has_peer(pid),
        !v.is_member(pid),
    ensures
        (ServerView { peers: v.peers.remove(v.peer_pos(pid)), ..v }).wf(),
        forall|m: PeerId| m != pid ==> (#[trigger] (ServerView { peers: v.peers.remove(v.peer_pos(pid)), ..v }).has_peer(m)) == v.has_peer(m),
        !(ServerView { peers: v.peers.remove(v.peer_pos(pid)), ..v }).has_peer(pid),
{
    let pi = v.peer_pos(pid);
    assert(v.peers[pi].id == pid);
    let w = ServerView { peers: v.peers.remove(pi), ..v };
    assert forall|k: int| #![trigger w.peers[k]] 0 <= k < w.peers.len() implies {
        let o = if k >= pi { k + 1 } else { k };
        &&& 0 <= o < v.peers.len()
        &&& o != pi
        &&& w.peers[k] == v.peers[o]
    } by {}
    assert(w.unique_peer_ids()) by {
        assert forall|i: int, j: int|
            0 <= i < w.peers.len() && 0 <= j < w.peers.len() && i != j implies #[trigger] w.peers[i].id
            != #[trigger] w.peers[j].id by {
            let oi = if i >= pi { i + 1 } else { i };
            let oj = if j >= pi { j + 1 } else { j };
            assert(v.peers[oi].id != v.peers[oj].id);
        }
    }
    assert forall|m: PeerId| #![trigger w.has_peer(m)] m != pid implies w.has_peer(m) == v.has_peer(m)
        && (v.has_peer(m) ==> w.peer(m) == v.peer(m)) by {
        if v.has_peer(m) {
            let o = v.peer_pos(m);
            assert(v.peers[o].id == m);
            assert(o != pi);
            let k = if o > pi { o - 1 } else { o };
            assert(w.peers[k] == v.peers[o]);
            lemma_peer_pos(w, k);
        }
        if w.has_peer(m) {
            let k = w.peer_pos(m);
            assert(w.peers[k].id == m);
        }
    }
    assert(!w.has_peer(pid)) by {
        if w.has_peer(pid) {
            let k = w.peer_pos(pid);
            let o = if k >= pi { k + 1 } else { k };
            assert(v.peers[o].id == pid);
            assert(v.peers[pi].id == pid);
        }
    }
    assert forall|i: int, m: PeerId|
        0 <= i < w.sessions.len() && #[trigger] w.sessions[i].peers.contains(m) implies {
            w.has_peer(m) && w.peer(m).session == Some(w.sessions[i].link())
        } by {
        assert(v.sessions[i].peers.contains(m));
        if m == pid {
            assert(v.is_member(pid));
        }
        assert(w.has_peer(m));
    }
    assert forall|k: int|
        0 <= k < w.peers.len() implies fresh_link((#[trigger] w.peers[k]).session, w.session_counter) by {
        let o = if k >= pi { k + 1 } else { k };
        assert(w.peers[k] == v.peers[o]);
    }
}

impl ServerState {
    /// The position of connected peer `pid`.
    fn peer_index(&self, pid: PeerId) -> (r: usize)
        requires
            self@.wf(),
            self@.has_peer(pid),
        ensures
            r == self@.peer_pos(pid),
            r < self@.peers.len(),
            self@.peers[r as int].id == pid,
    {
        match self.find_peer(pid) {
            Some(i) => i,
            None => 0,
        }
    }

    /// Whether a peer with id `pid` is connected.
    pub fn has_peer(&self, pid: PeerId) -> (r: bool)
        requires
            self@.wf(),
        ensures
            r == self@.has_peer(pid),
    {
        self.find_peer(pid).is_some()
    }

    /// Takes the next peer id from the counter (which wraps around).
    pub fn next_peer_id(&mut self) -> (r: PeerId)
        ensures
            r == old(self)@.peer_id_counter,
            final(self)@ == (ServerView {
                peer_id_counter: if old(self)@.peer_id_counter == u64::MAX {
                    0
                } else {
                    (old(self)@.peer_id_counter + 1) as u64
                },
                ..old(self)@
            }),
    {
        let id = self.peer_id_counter;
        self.peer_id_counter = if id == u64::MAX {
            0
        } else {
            id + 1
        };
        id
    }

    /// Adds a newly connected peer; refused (returning `false`, changing
    /// nothing) when a peer with the same id is connected.
    pub fn register_peer(&mut self, peer: Peer) -> (r: bool)
        requires
            old(self)@.wf(),
            !peer@.state_dirty.contains(peer@.id),
            fresh_link(peer@.session, old(self)@.session_counter),
        ensures
            r == !old(self)@.has_peer(peer@.id),
            r ==> final(self)@ == old(self)@.register(peer@),
            !r ==> final(self)@ == old(self)@,
            final(self)@.wf(),
    {
        if self.has_peer(peer.id) {
            return false;
        }
        let ghost v = self@;
        let ghost p = peer@;
        self.peers.push(peer);
        proof {
            let w = v.register(p);
            assert(self@ =~= w);
            let n = v.peers.len() as int;
            assert(w.peers[n] == p);
            assert forall|i: int, j: int|
                0 <= i < w.peers.len() && 0 <= j < w.peers.len() && i != j implies #[trigger] w.peers[i].id
                != #[trigger] w.peers[j].id by {
                if i < n && j < n {
                    assert(w.peers[i] == v.peers[i] && w.peers[j] == v.peers[j]);
                } else if i < n {
                    assert(w.peers[i] == v.peers[i]);
                    assert(v.peers[i].id == v.peers[i].id);
                } else {
                    assert(w.peers[j] == v.peers[j]);
                    assert(v.peers[j].id == v.peers[j].id);
                }
            }
            assert forall|i: int| 0 <= i < w.peers.len() implies fresh_link((#[trigger] w.peers[i]).session, w.session_counter) by {
                if i < n {
                    assert(w.peers[i] == v.peers[i]);
                }
            }
            assert forall|m: PeerId| v.has_peer(m) implies #[trigger] w.has_peer(m) && w.peer(m) == v.peer(m) by {
                let o = v.peer_pos(m);
                assert(v.peers[o].id == m);
                assert(w.peers[o] == v.peers[o]);
                lemma_peer_pos(w, o);
            }
        }
        true
    }

    /// Makes sure session `session_id` exists, creating it empty, as a new
    /// instance, if needed.
    pub fn get_or_create_session(&mut self, session_id: &str)
        requires
            old(self)@.wf(),
            old(self)@.can_create(session_id@),
        ensures
            final(self)@ == old(self)@.get_or_create_session(session_id@),
            final(self)@.wf(),
            final(self)@.has_session(session_id@),
    {
        proof {
            lemma_get_or_create_session_wf(self@, session_id@);
        }
        let key = String::from_str(session_id);
        if self.find_session(&key).is_none() {
            let ghost v = self@;
            let generation = self.session_counter;
            self.sessions.push(Session::new(key, generation));
            self.session_counter = generation + 1;
            assert(self@ =~= v.get_or_create_session(session_id@));
        }
    }

    /// The position of the session instance connected peer `peer_id` (at
    /// position `pi`) is linked to, if it still exists.
    fn live_session_index(&self, peer_id: PeerId, pi: usize) -> (r: Option<usize>)
        requires
            self@.wf(),
            self@.has_peer(peer_id),
            pi == self@.peer_pos(peer_id),
        ensures
            r is None <==> self@.live_session_of(peer_id) is None,
            r matches Some(i) ==> i < self@.sessions.len() && self@.live_session_of(peer_id) == Some(
                self@.sessions[i as int].id,
            ) && self@.session_pos(self@.sessions[i as int].id) == i,
    {
        assert(self@.peers[pi as int] == self.peers@[pi as int]@);
        match &self.peers[pi].session {
            Some(link) => match self.find_session(&link.id) {
                Some(i) => {
                    assert(self@.sessions[i as int] == self.sessions@[i as int]@);
                    if self.sessions[i].generation == link.generation {
                        Some(i)
                    } else {
                        None
                    }
                },
                None => None,
            },
            None => None,
        }
    }

    /// The generation the next created session gets.
    pub fn session_counter(&self) -> (r: u64)
        ensures
            r == self@.session_counter,
    {
        self.session_counter
    }

    /// The position of existing session `sid`.
    fn session_index(&self, sid: &String) -> (r: usize)
        requires
            self@.wf(),
            self@.has_session(sid@),
        ensures
            r == self@.session_pos(sid@),
            r < self@.sessions.len(),
            self@.sessions[r as int].id == sid@,
    {
        match self.find_session(sid) {
            Some(i) => i,
            None => 0,
        }
    }

    /// Links connected peer `peer_id` to the current instance of existing
    /// session `session_id` and makes it a member. Refused, changing nothing,
    /// when the peer is already linked to a session instance that still
    /// exists.
    pub fn join_peer_to_session(&mut self, peer_id: PeerId, session_id: &str) -> (r: Result<(), ServerError>)
        requires
            old(self)@.wf(),
            old(self)@.has_peer(peer_id),
            old(self)@.has_session(session_id@),
        ensures
            final(self)@.wf(),
            old(self)@.live_session_of(peer_id) is Some ==> final(self)@ == old(self)@ && (r matches Err(e)
                && e.message@ == already_associated_text(
                old(self)@.peer(peer_id),
                old(self)@.session(session_id@),
            )),
            old(self)@.live_session_of(peer_id) is None ==> r is Ok && final(self)@ == old(self)@.join(
                peer_id,
                session_id@,
            ),
    {
        let key = String::from_str(session_id);
        let pi = self.peer_index(peer_id);
        let si = self.session_index(&key);
        assert(self@.peers[pi as int] == self.peers@[pi as int]@);
        assert(self@.sessions[si as int] == self.sessions@[si as int]@);
        if self.live_session_index(peer_id, pi).is_some() {
            let text = concat(
                concat(
                    concat("peer ", self.peers[pi].describe().as_str()).as_str(),
                    " is already associated with session ",
                ).as_str(),
                self.sessions[si].describe().as_str(),
            );
            return Err(ServerError::new(text));
        }
        proof {
            lemma_join_wf(self@, peer_id, session_id@);
        }
        let ghost v = self@;
        let generation = self.sessions[si].generation;
        self.peers[pi].session = Some(SessionRef { id: key.clone(), generation });
        self.sessions[si].peers.push(peer_id);
        assert(self@ =~= v.join(peer_id, session_id@));
        Ok(())
    }

    /// Removes connected peer `peer_id` from its session, see
    /// [`ServerView::drop_peer`].
    pub fn drop_peer(&mut self, peer_id: PeerId)
        requires
            old(self)@.wf(),
            old(self)@.has_peer(peer_id),
        ensures
            final(self)@ == old(self)@.drop_peer(peer_id),
            final(self)@.wf(),
    {
        proof {
            lemma_drop_peer_wf(self@, peer_id);
        }
        let ghost v = self@;
        let pi = self.peer_index(peer_id);
        let si = match self.live_session_index(peer_id, pi) {
            Some(i) => i,
            None => return ,
        };
        assert(self@.sessions[si as int] == self.sessions@[si as int]@);
        let members = without_id(&self.sessions[si].peers, peer_id);
        let ghost sessions_before = self.sessions@;
        let mut j: usize = 0;
        while j < self.peers.len()
            invariant
                j <= self.peers@.len(),
                self.peers@.len() == v.peers.len(),
                self.sessions@ == sessions_before,
                self.peer_id_counter == v.peer_id_counter,
                self.session_counter == v.session_counter,
                opt_chars(self.manager_url) == v.manager_url,
                opt_chars(self.manager_api_key) == v.manager_api_key,
                forall|k: int| 0 <= k < j ==> #[trigger] self.peers@[k]@ == ServerView::forget_dirty(
                    v.peers[k],
                    members@,
                    peer_id,
                ),
                forall|k: int| j <= k < self.peers@.len() ==> #[trigger] self.peers@[k]@ == v.peers[k],
            decreases self.peers@.len() - j,
        {
            let ghost before = self.peers@;
            assert(before[j as int]@ == v.peers[j as int]);
            if contains_id(&members, self.peers[j].id) {
                let dirty = without_id(&self.peers[j].state_dirty, peer_id);
                self.peers[j].state_dirty = dirty;
                assert(self.peers@ == before.update(j as int, self.peers@[j as int]));
                assert(self.peers@[j as int]@ =~= ServerView::forget_dirty(v.peers[j as int], members@, peer_id));
            } else {
                assert(self.peers@[j as int]@ =~= ServerView::forget_dirty(v.peers[j as int], members@, peer_id));
            }
            j = j + 1;
        }
        if members.len() == 0 {
            self.sessions.remove(si);
        } else {
            self.sessions[si].peers = members;
        }
        assert(self@.peers =~= v.drop_peer(peer_id).peers);
        assert(self@.sessions =~= v.drop_peer(peer_id).sessions);
    }

    /// Drops peer `peer_id` from its session and forgets it: the peer has
    /// disconnected.
    pub fn disconnect_peer(&mut self, peer_id: PeerId)
        requires
            old(self)@.wf(),
            old(self)@.has_peer(peer_id),
        ensures
            final(self)@ == old(self)@.disconnect(peer_id),
            final(self)@.wf(),
            !final(self)@.has_peer(peer_id),
    {
        self.drop_peer(peer_id);
        proof {
            lemma_drop_peer_wf(old(self)@, peer_id);
            lemma_same_peer_ids(old(self)@, self@, peer_id);
            lemma_unregister_wf(self@, peer_id);
        }
        let pi = self.peer_index(peer_id);
        let ghost d = self@;
        self.peers.remove(pi);
        assert(self@ =~= (ServerView { peers: d.peers.remove(d.peer_pos(peer_id)), ..d }));
    }
}

impl ServerState {
    /// Sets the name peer `peer_id` logged in with.
    pub fn set_username(&mut self, peer_id: PeerId, username: String)
        requires
            old(self)@.wf(),
            old(self)@.has_peer(peer_id),
        ensures
            final(self)@ == old(self)@.with_username(peer_id, username@),
            final(self)@.wf(),
    {
        let pi = self.peer_index(peer_id);
        proof {
            lemma_update_peer_wf(self@, peer_id, PeerView { username: Some(username@), ..self@.peer(peer_id) });
        }
        let ghost v = self@;
        self.peers[pi].username = Some(username);
        assert(self@.peers =~= v.with_username(peer_id, username@).peers);
    }

    /// Records (or, with `None`, withdraws) a request of peer `peer_id` for
    /// all states of its session with the given tag.
    pub fn set_full_delivery(&mut self, peer_id: PeerId, tag: Option<String>)
        requires
            old(self)@.wf(),
            old(self)@.has_peer(peer_id),
        ensures
            final(self)@ == old(self)@.with_full_delivery(peer_id, opt_chars(tag)),
            final(self)@.wf(),
    {
        let pi = self.peer_index(peer_id);
        proof {
            lemma_update_peer_wf(self@, peer_id, PeerView { full_delivery: opt_chars(tag), ..self@.peer(peer_id) });
        }
        let ghost v = self@;
        self.peers[pi].full_delivery = tag;
        assert(self@.peers =~= v.with_full_delivery(peer_id, opt_chars(tag)).peers);
    }

    /// Takes the pending full-delivery request of peer `peer_id`, if any.
    pub fn take_full_delivery(&mut self, peer_id: PeerId) -> (r: Option<String>)
        requires
            old(self)@.wf(),
            old(self)@.has_peer(peer_id),
        ensures
            opt_chars(r) == old(self)@.peer(peer_id).full_delivery,
            final(self)@ == old(self)@.with_full_delivery(peer_id, None),
            final(self)@.wf(),
    {
        let pi = self.peer_index(peer_id);
        let r = match &self.peers[pi].full_delivery {
            Some(t) => Some(t.clone()),
            None => None,
        };
        self.set_full_delivery(peer_id, None);
        r
    }

    /// Replaces the dirty peers of peer `peer_id` by `ids`.
    pub fn set_dirty(&mut self, peer_id: PeerId, ids: Vec<PeerId>)
        requires
            old(self)@.wf(),
            old(self)@.has_peer(peer_id),
            !ids@.contains(peer_id),
        ensures
            final(self)@ == old(self)@.with_dirty(peer_id, ids@),
            final(self)@.wf(),
    {
        let pi = self.peer_index(peer_id);
        proof {
            lemma_update_peer_wf(self@, peer_id, PeerView { state_dirty: ids@, ..self@.peer(peer_id) });
        }
        let ghost v = self@;
        let ghost ids_v = ids@;
        self.peers[pi].state_dirty = ids;
        assert(self@.peers =~= v.with_dirty(peer_id, ids_v).peers);
    }

    /// Resets the dirty peers of peer `peer_id`, so that no peer is dirty
    /// for it afterwards.
    pub fn clear_dirty(&mut self, peer_id: PeerId)
        requires
            old(self)@.wf(),
            old(self)@.has_peer(peer_id),
        ensures
            final(self)@ == old(self)@.with_dirty(peer_id, Seq::empty()),
            final(self)@.wf(),
    {
        self.set_dirty(peer_id, Vec::new());
    }

    /// Marks peer `peer_id` for disconnection.
    fn set_terminate(&mut self, peer_id: PeerId)
        requires
            old(self)@.wf(),
            old(self)@.has_peer(peer_id),
        ensures
            final(self)@ == old(self)@.with_terminate(peer_id),
            final(self)@.wf(),
    {
        let pi = self.peer_index(peer_id);
        proof {
            lemma_update_peer_wf(self@, peer_id, PeerView { terminate: true, ..self@.peer(peer_id) });
        }
        let ghost v = self@;
        self.peers[pi].terminate = true;
        assert(self@.peers =~= v.with_terminate(peer_id).peers);
    }

    /// Leaves peer `peer_id`, a member of no session, without a session.
    fn clear_session(&mut self, peer_id: PeerId)
        requires
            old(self)@.wf(),
            old(self)@.has_peer(peer_id),
            !old(self)@.is_member(peer_id),
        ensures
            final(self)@ == old(self)@.without_session(peer_id),
            final(self)@.wf(),
    {
        let pi = self.peer_index(peer_id);
        proof {
            lemma_update_peer_wf(self@, peer_id, PeerView { session: None, ..self@.peer(peer_id) });
        }
        let ghost v = self@;
        self.peers[pi].session = None;
        assert(self@.peers =~= v.without_session(peer_id).peers);
    }

    /// The members of the first `k` sessions logged in as `name`, see
    /// [`ServerView::named_in_sessions`].
    fn peers_named(&self, name: &String) -> (r: Vec<PeerId>)
        requires
            self@.wf(),
        ensures
            r@ == self@.named_in_sessions(self@.sessions.len() as int, name@),
    {
        let mut out: Vec<PeerId> = Vec::new();
        let mut i: usize = 0;
        while i < self.sessions.len()
            invariant
                self@.wf(),
                i <= self@.sessions.len(),
                out@ == self@.named_in_sessions(i as int, name@),
            decreases self@.sessions.len() - i,
        {
            let members = &self.sessions[i].peers;
            assert(members@ == self@.sessions[i as int].peers);
            let ghost start = out@;
            let mut j: usize = 0;
            assert(members@.take(0) =~= Seq::<PeerId>::empty());
            while j < members.len()
                invariant
                    self@.wf(),
                    i < self@.sessions.len(),
                    members@ == self@.sessions[i as int].peers,
                    j <= members@.len(),
                    start == self@.named_in_sessions(i as int, name@),
                    out@ == start + self@.named_members(members@.take(j as int), name@),
                decreases members@.len() - j,
            {
                assert(members@.take(j + 1).drop_last() =~= members@.take(j as int));
                assert(members@.take(j + 1).last() == members@[j as int]);
                let m = members[j];
                let named = match self.find_peer(m) {
                    Some(pi) => {
                        assert(self@.peers[pi as int] == self.peers@[pi as int]@);
                        match &self.peers[pi].username {
                            Some(u) => *u == *name,
                            None => false,
                        }
                    },
                    None => false,
                };
                if named {
                    out.push(m);
                }
                assert(out@ =~= start + self@.named_members(members@.take(j + 1), name@));
                j = j + 1;
            }
            assert(members@.take(members@.len() as int) =~= members@);
            assert(out@ =~= self@.named_in_sessions(i + 1, name@));
            i = i + 1;
        }
        out
    }

    /// Drops every session member logged in as `username`: each is marked
    /// for disconnection, dropped from its session and left without one.
    pub fn drop_peers_by_username(&mut self, username: &String)
        requires
            old(self)@.wf(),
        ensures
            final(self)@ == old(self)@.drop_peers_by_username(username@),
            final(self)@.wf(),
    {
        let drops = self.peers_named(username);
        let ghost v = self@;
        proof {
            lemma_named_in_sessions_connected(v, v.sessions.len() as int, username@);
        }
        let mut k: usize = 0;
        assert(drops@.take(0) =~= Seq::<PeerId>::empty());
        while k < drops.len()
            invariant
                v.wf(),
                k <= drops@.len(),
                forall|i: int| 0 <= i < drops@.len() ==> v.has_peer(#[trigger] drops@[i]),
                self@ == v.drop_all(drops@.take(k as int)),
                self@.wf(),
            decreases drops@.len() - k,
        {
            let pid = drops[k];
            proof {
                let prefix = drops@.take(k as int);
                assert(forall|i: int| 0 <= i < prefix.len() ==> #[trigger] prefix[i] == drops@[i]);
                lemma_drop_all_wf(v, prefix);
                assert(v.has_peer(drops@[k as int]));
                assert(self@.has_peer(pid));
            }
            proof {
                lemma_update_peer_wf(self@, pid, PeerView { terminate: true, ..self@.peer(pid) });
            }
            self.set_terminate(pid);
            let ghost t = self@;
            proof {
                lemma_drop_peer_wf(t, pid);
            }
            self.drop_peer(pid);
            proof {
                lemma_same_peer_ids(t, self@, pid);
            }
            self.clear_session(pid);
            assert(drops@.take(k + 1).drop_last() =~= drops@.take(k as int));
            assert(drops@.take(k + 1).last() == pid);
            k = k + 1;
        }
        assert(drops@.take(drops@.len() as int) =~= drops@);
    }

    /// Stores the state peer `peer_id` published and marks it dirty for the
    /// other members of its session. Refused (`false`, nothing changes) when
    /// the data is larger than [`MAX_STATE_SIZE_BYTES`]; accepted but not
    /// stored when the peer has no live session.
    pub fn set_peer_state(&mut self, peer_id: PeerId, state: TaggedState) -> (r: bool)
        requires
            old(self)@.wf(),
            old(self)@.has_peer(peer_id),
        ensures
            r == ServerView::state_fits(state@),
            r ==> final(self)@ == old(self)@.set_peer_state(peer_id, state@),
            !r ==> final(self)@ == old(self)@,
            final(self)@.wf(),
    {
        if state.data.len() > MAX_STATE_SIZE_BYTES as usize {
            return false;
        }
        let ghost v = self@;
        let ghost st = state@;
        let pi = self.peer_index(peer_id);
        let si = match self.live_session_index(peer_id, pi) {
            Some(i) => i,
            None => return true,
        };
        assert(self@.peers[pi as int] == self.peers@[pi as int]@);
        assert(self@.sessions[si as int] == self.sessions@[si as int]@);
        let ghost sid = v.sessions[si as int].id;
        let ghost members = v.session(sid).peers;
        let member_ids = self.sessions[si].peers.clone();
        assert(member_ids@ =~= members);
        self.peers[pi].state = Some(state);
        let mut j: usize = 0;
        while j < self.peers.len()
            invariant
                j <= self.peers@.len(),
                self.peers@.len() == v.peers.len(),
                pi < v.peers.len(),
                v.peers[pi as int].id == peer_id,
                v.unique_peer_ids(),
                member_ids@ == members,
                self@.sessions == v.sessions,
                self.peer_id_counter == v.peer_id_counter,
                self.session_counter == v.session_counter,
                opt_chars(self.manager_url) == v.manager_url,
                opt_chars(self.manager_api_key) == v.manager_api_key,
                forall|k: int| 0 <= k < j ==> #[trigger] self.peers@[k]@ == ServerView::publish_to(
                    v.peers[k],
                    members,
                    peer_id,
                    st,
                ),
                forall|k: int| j <= k < self.peers@.len() && k != pi ==> #[trigger] self.peers@[k]@ == v.peers[k],
                j <= pi ==> self.peers@[pi as int]@ == ServerView::publish_to(v.peers[pi as int], members, peer_id, st),
            decreases self.peers@.len() - j,
        {
            let ghost before = self.peers@;
            if j != pi {
                assert(before[j as int]@ == v.peers[j as int]);
                assert(v.peers[j as int].id != peer_id);
                if contains_id(&member_ids, self.peers[j].id) {
                    let id = peer_id;
                    let mut dirty = self.peers[j].state_dirty.clone();
                    assert(dirty@ =~= v.peers[j as int].state_dirty);
                    add_id(&mut dirty, id);
                    self.peers[j].state_dirty = dirty;
                }
                assert(self.peers@[j as int]@ =~= ServerView::publish_to(v.peers[j as int], members, peer_id, st));
            }
            j = j + 1;
        }
        proof {
            assert(self@.peers =~= v.set_peer_state(peer_id, st).peers);
            lemma_publish_keeps_peers(v, peer_id, st);
        }
        assert(self@ =~= v.set_peer_state(peer_id, st));
        true
    }

    /// The peers whose states peer `peer_id` is to be sent, see
    /// [`ServerView::out_of_date_peers`]; fails when the peer has no session.
    pub fn get_out_of_date_peers(&self, peer_id: PeerId, all_session_peers: bool) -> (r: Result<Vec<PeerId>, ServerError>)
        requires
            self@.wf(),
            self@.has_peer(peer_id),
        ensures
            match self@.out_of_date_peers(peer_id, all_session_peers) {
                None => r matches Err(e) && e.message@ == no_session_text(self@.peer(peer_id)),
                Some(ids) => r matches Ok(v) && v@ == ids,
            },
    {
        let pi = self.peer_index(peer_id);
        assert(self@.peers[pi as int] == self.peers@[pi as int]@);
        let si = match self.live_session_index(peer_id, pi) {
            Some(i) => i,
            None => {
                let text = concat(self.peers[pi].describe().as_str(), " has no associated session");
                return Err(ServerError::new(text));
            },
        };
        assert(self@.sessions[si as int] == self.sessions@[si as int]@);
        if all_session_peers {
            return Ok(without_id(&self.sessions[si].peers, peer_id));
        }
        let dirty = &self.peers[pi].state_dirty;
        let mut out: Vec<PeerId> = Vec::new();
        let mut j: usize = 0;
        assert(dirty@.take(0) =~= Seq::<PeerId>::empty());
        while j < dirty.len()
            invariant
                self@.wf(),
                j <= dirty@.len(),
                out@ == self@.connected_ids(dirty@.take(j as int)),
            decreases dirty@.len() - j,
        {
            assert(dirty@.take(j + 1).drop_last() =~= dirty@.take(j as int));
            assert(dirty@.take(j + 1).last() == dirty@[j as int]);
            if self.has_peer(dirty[j]) {
                out.push(dirty[j]);
            }
            j = j + 1;
        }
        assert(dirty@.take(dirty@.len() as int) =~= dirty@);
        Ok(out)
    }
}

impl ServerState {
    /// The manager's URL and API key, when both are configured.
    pub fn manager(&self) -> (r: Option<(String, String)>)
        ensures
            match (self@.manager_url, self@.manager_api_key) {
                (Some(u), Some(k)) => r matches Some((a, b)) && a@ == u && b@ == k,
                _ => r is None,
            },
    {
        match (&self.manager_url, &self.manager_api_key) {
            (Some(u), Some(k)) => Some((u.clone(), k.clone())),
            _ => None,
        }
    }

    /// Whether connected peer `peer_id` is linked to a session instance that
    /// still exists.
    pub fn has_live_session(&self, peer_id: PeerId) -> (r: bool)
        requires
            self@.wf(),
            self@.has_peer(peer_id),
        ensures
            r == self@.live_session_of(peer_id) is Some,
    {
        let pi = self.peer_index(peer_id);
        self.live_session_index(peer_id, pi).is_some()
    }
}

impl Peer {
    /// Resets this peer's dirty peers, so that none is dirty afterwards.
    pub fn clear_dirty(&mut self)
        ensures
            final(self)@ == (PeerView { state_dirty: Seq::empty(), ..old(self)@ }),
    {
        self.state_dirty = Vec::new();
    }

    /// The peers whose states this peer is to be sent, as the server it is
    /// connected to sees them, see [`ServerView::out_of_date_peers`]; fails
    /// when the peer has no session.
    pub fn get_out_of_date_peers(&self, server: &ServerState, all_session_peers: bool) -> (r: Result<Vec<PeerId>, ServerError>)
        requires
            server@.wf(),
            server@.has_peer(self.id),
        ensures
            match server@.out_of_date_peers(self.id, all_session_peers) {
                None => r matches Err(e) && e.message@ == no_session_text(server@.peer(self.id)),
                Some(ids) => r matches Ok(v) && v@ == ids,
            },
    {
        server.get_out_of_date_peers(self.id, all_session_peers)
    }
}

/// Peers are the same peer when their ids are equal.
impl PartialEq for Peer {
    fn eq(&self, other: &Self) -> (r: bool) {
        self.id == other.id
    }
}

impl vstd::std_specs::cmp::PartialEqSpecImpl for Peer {
    open spec fn obeys_eq_spec() -> bool {
        true
    }

    open spec fn eq_spec(&self, other: &Self) -> bool {
        self.id == other.id
    }
}

} // verus!
