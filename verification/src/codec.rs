//! The message protocol between clients and the server.
//!
//! Every message starts with a one-byte message id, followed by the body of
//! that message kind. Strings are pascal strings, state data is a pascal
//! buffer, integers are little endian (see [`crate::pascal`]).

use crate::buffer::{buffer_advance, buffer_bytes, buffer_extend, bytes_contents};
use crate::endian::{le_u16_bytes, le_u64_bytes, write_le_u16, write_le_u64};
use crate::pascal::{
    pbuffer_bytes, pstring_bytes, read_pbuffer_at, read_pbuffer_spec, read_pstring_at,
    read_pstring_spec, write_pbuffer, write_pstring, PascalError,
};
use crate::server::{TaggedState, TaggedStateView};
use crate::text::{concat, decimal, u64_to_decimal};
use bytes::BytesMut;
use vstd::prelude::*;
use vstd::string::StringExecFns;
use vstd::utf8::encode_utf8;

verus! {

/// The peer identifier.
pub type PeerId = u64;

/// The current message protocol version implemented by this server.
pub const PROTOCOL_VERSION: u16 = 0;

/// The maximum state data size, see [`ClientMessageTypeId::UpdateState`] and
/// [`ServerMessageTypeId::UpdateState`].
pub const MAX_STATE_SIZE_BYTES: u16 = 5000;

/// Client message IDs. Prefixed to every message sent from the client.
#[derive(Debug, Clone, Copy, PartialEq, Eq, Structural)]
pub enum ClientMessageTypeId {
    /// Login request (id 0). Must be the first message sent from the client.
    ///
    /// If the user can be authenticated, authorized and is allowed to join the
    /// session identified by `session_id`, the server sends a
    /// [`ServerMessageTypeId::ServerInfo`], otherwise a
    /// [`ServerMessageTypeId::Failure`].
    ///
    /// Body: `username: PString`, `auth_token: PString`, `session_id: PString`.
    Login,
    /// Client state to be broadcast to other peers in the same session (id 1).
    ///
    /// The server stores the sent data, replacing existing state, and marks it
    /// for delivery to all other peers of the session.
    ///
    /// Body: `tag: PString`, `data: PBuffer` of at most
    /// [`MAX_STATE_SIZE_BYTES`] bytes.
    UpdateState,
    /// Request to deliver all known states in the session matching the given
    /// tag (id 2). The response is a [`ServerMessageTypeId::FullSync`].
    ///
    /// Body: `tag: PString`.
    StateQuery,
    /// Client error with a diagnostic message for the server (id 3).
    ///
    /// Body: `message: PString`.
    Failure,
}

impl ClientMessageTypeId {
    /// The message kind with wire id `id`, if there is one.
    pub open spec fn from_id(id: u8) -> Option<ClientMessageTypeId> {
        if id == 0 {
            Some(ClientMessageTypeId::Login)
        } else if id == 1 {
            Some(ClientMessageTypeId::UpdateState)
        } else if id == 2 {
            Some(ClientMessageTypeId::StateQuery)
        } else if id == 3 {
            Some(ClientMessageTypeId::Failure)
        } else {
            None
        }
    }

    /// The message kind with wire id `id`, if there is one.
    pub fn try_from_u8(id: u8) -> (r: Option<ClientMessageTypeId>)
        ensures
            r == Self::from_id(id),
    {
        if id == 0 {
            Some(ClientMessageTypeId::Login)
        } else if id == 1 {
            Some(ClientMessageTypeId::UpdateState)
        } else if id == 2 {
            Some(ClientMessageTypeId::StateQuery)
        } else if id == 3 {
            Some(ClientMessageTypeId::Failure)
        } else {
            None
        }
    }
}

/// Server message IDs. Prefixed to every message sent from the server.
#[derive(Debug, Clone, Copy, PartialEq, Eq, Structural)]
pub enum ServerMessageTypeId {
    /// Response to a successful login (id 0).
    ///
    /// Body: `protocol_version: u16` ([`PROTOCOL_VERSION`]),
    /// `max_state_size_bytes: u16` ([`MAX_STATE_SIZE_BYTES`]).
    ServerInfo,
    /// An error message for the client (id 1). Body: `message: PString`.
    Failure,
    /// A state update for one peer (id 2). The `peer_id` is a server-defined
    /// abstract id of the peer.
    ///
    /// Body: `peer_id: u64`, `data: PBuffer`.
    UpdateState,
    /// All known states in the peer's session with a matching tag (id 3).
    ///
    /// Body: `state_count: u16`, then `state_count` times `peer_id: u64`,
    /// `data: PBuffer`.
    FullSync,
}

impl ServerMessageTypeId {
    /// The wire id of this message kind.
    pub open spec fn spec_id(self) -> u8 {
        match self {
            ServerMessageTypeId::ServerInfo => 0,
            ServerMessageTypeId::Failure => 1,
            ServerMessageTypeId::UpdateState => 2,
            ServerMessageTypeId::FullSync => 3,
        }
    }

    /// The wire id of this message kind.
    pub fn id(self) -> (r: u8)
        ensures
            r == self.spec_id(),
    {
        match self {
            ServerMessageTypeId::ServerInfo => 0,
            ServerMessageTypeId::Failure => 1,
            ServerMessageTypeId::UpdateState => 2,
            ServerMessageTypeId::FullSync => 3,
        }
    }
}

/// Messages the server sends, as handed to [`MessageCodec::encode`].
#[derive(Debug)]
pub enum ServerMessage {
    /// Server information, see [`ServerMessageTypeId::ServerInfo`].
    ServerInfo {},
    /// Failure message, see [`ServerMessageTypeId::Failure`].
    Failure {
        /// The message to be sent to the client.
        message: String,
    },
    /// State broadcast, one [`ServerMessageTypeId::UpdateState`] per state.
    UpdateState {
        /// The peer states to be delivered.
        states: Vec<(PeerId, TaggedState)>,
    },
    /// Complete state delivery, see [`ServerMessageTypeId::FullSync`].
    FullSync {
        /// The peer states to be delivered.
        states: Vec<(PeerId, TaggedState)>,
    },
}

/// The mathematical value of a [`ServerMessage`].
pub enum ServerMessageView {
    ServerInfo,
    Failure { message: Seq<char> },
    UpdateState { states: Seq<(PeerId, TaggedStateView)> },
    FullSync { states: Seq<(PeerId, TaggedStateView)> },
}

/// The values of a list of delivered states.
pub open spec fn states_view(states: Seq<(PeerId, TaggedState)>) -> Seq<(PeerId, TaggedStateView)> {
    states.map_values(|p: (PeerId, TaggedState)| (p.0, p.1@))
}

impl View for ServerMessage {
    type V = ServerMessageView;

    open spec fn view(&self) -> ServerMessageView {
        match self {
            ServerMessage::ServerInfo {  } => ServerMessageView::ServerInfo,
            ServerMessage::Failure { message } => ServerMessageView::Failure { message: message@ },
            ServerMessage::UpdateState { states } => ServerMessageView::UpdateState {
                states: states_view(states@),
            },
            ServerMessage::FullSync { states } => ServerMessageView::FullSync {
                states: states_view(states@),
            },
        }
    }
}

/// Messages the server receives, as returned by [`MessageCodec::decode`].
#[derive(Debug)]
pub enum ClientMessage {
    /// Login request message, see [`ClientMessageTypeId::Login`].
    Login { username: String, auth_token: String, session_id: String },
    /// State update message, see [`ClientMessageTypeId::UpdateState`].
    UpdateState { tag: String, data: Vec<u8> },
    /// Request to do a full sync, see [`ClientMessageTypeId::StateQuery`].
    StateQuery { tag: String },
    /// Failure message, see [`ClientMessageTypeId::Failure`].
    Failure {
        /// The message sent to the server.
        message: String,
    },
}

/// The mathematical value of a [`ClientMessage`].
pub enum ClientMessageView {
    Login { username: Seq<char>, auth_token: Seq<char>, session_id: Seq<char> },
    UpdateState { tag: Seq<char>, data: Seq<u8> },
    StateQuery { tag: Seq<char> },
    Failure { message: Seq<char> },
}

impl View for ClientMessage {
    type V = ClientMessageView;

    open spec fn view(&self) -> ClientMessageView {
        match self {
            ClientMessage::Login { username, auth_token, session_id } => ClientMessageView::Login {
                username: username@,
                auth_token: auth_token@,
                session_id: session_id@,
            },
            ClientMessage::UpdateState { tag, data } => ClientMessageView::UpdateState {
                tag: tag@,
                data: data@,
            },
            ClientMessage::StateQuery { tag } => ClientMessageView::StateQuery { tag: tag@ },
            ClientMessage::Failure { message } => ClientMessageView::Failure { message: message@ },
        }
    }
}

/// Simple container for a message codec error.
#[derive(Debug)]
pub struct MessageCodecError {
    pub message: String,
}

impl MessageCodecError {
    pub fn new(message: String) -> (r: Self)
        ensures
            r.message@ == message@,
    {
        Self { message }
    }
}

/// The codec that frames client messages out of, and server messages into,
/// a byte stream.
#[derive(Clone, Copy, Debug)]
pub struct MessageCodec {}

impl MessageCodec {
    pub fn new() -> Self {
        Self {  }
    }
}

// ---------------------------------------------------------------------------
// Decoding

/// What the front of a byte stream holds, as far as the decoder is concerned.
pub enum Decoded {
    /// Not enough bytes yet for a complete message (also when a field cannot
    /// be read at all, such as invalid UTF-8: the decoder then keeps waiting).
    Incomplete,
    /// A complete message that takes the given number of bytes.
    Message(ClientMessageView, int),
    /// A complete client failure message with the client's text, taking the
    /// given number of bytes; the decoder reports it as an error.
    ClientFailure(Seq<char>, int),
    /// The first byte is no client message id.
    UnknownId(u8),
}

/// The message at the front of `s`.
pub open spec fn decode_spec(s: Seq<u8>) -> Decoded {
    if s.len() == 0 {
        Decoded::Incomplete
    } else {
        let body = s.skip(1);
        match ClientMessageTypeId::from_id(s[0]) {
            None => Decoded::UnknownId(s[0]),
            Some(ClientMessageTypeId::Login) => match read_pstring_spec(body) {
                Ok((username, n1)) => match read_pstring_spec(body.skip(n1)) {
                    Ok((auth_token, n2)) => match read_pstring_spec(body.skip(n1 + n2)) {
                        Ok((session_id, n3)) => Decoded::Message(
                            ClientMessageView::Login { username, auth_token, session_id },
                            1 + n1 + n2 + n3,
                        ),
                        Err(_) => Decoded::Incomplete,
                    },
                    Err(_) => Decoded::Incomplete,
                },
                Err(_) => Decoded::Incomplete,
            },
            Some(ClientMessageTypeId::UpdateState) => match read_pstring_spec(body) {
                Ok((tag, n1)) => match read_pbuffer_spec(body.skip(n1), MAX_STATE_SIZE_BYTES) {
                    Ok((data, n2)) => Decoded::Message(
                        ClientMessageView::UpdateState { tag, data },
                        1 + n1 + n2,
                    ),
                    Err(_) => Decoded::Incomplete,
                },
                Err(_) => Decoded::Incomplete,
            },
            Some(ClientMessageTypeId::StateQuery) => match read_pstring_spec(body) {
                Ok((tag, n1)) => Decoded::Message(ClientMessageView::StateQuery { tag }, 1 + n1),
                Err(_) => Decoded::Incomplete,
            },
            Some(ClientMessageTypeId::Failure) => match read_pstring_spec(body) {
                Ok((message, n1)) => Decoded::ClientFailure(message, 1 + n1),
                Err(_) => Decoded::Incomplete,
            },
        }
    }
}

/// The text of the error for an unknown message id.
pub open spec fn unknown_id_message(id: u8) -> Seq<char> {
    "Invalid message ID `"@ + decimal(id as nat) + "`"@
}

/// The decoder's reading of a byte slice, with owned values.
pub enum Frame {
    Incomplete,
    Message(ClientMessage, usize),
    ClientFailure(String, usize),
    UnknownId(u8),
}

impl View for Frame {
    type V = Decoded;

    open spec fn view(&self) -> Decoded {
        match self {
            Frame::Incomplete => Decoded::Incomplete,
            Frame::Message(m, n) => Decoded::Message(m@, *n as int),
            Frame::ClientFailure(text, n) => Decoded::ClientFailure(text@, *n as int),
            Frame::UnknownId(id) => Decoded::UnknownId(*id),
        }
    }
}

/// Reads the message at the front of `data`, if it is complete.
pub fn parse_frame(data: &[u8]) -> (r: Frame)
    ensures
        r@ == decode_spec(data@),
{
    if data.len() == 0 {
        return Frame::Incomplete;
    }
    let ghost body = data@.skip(1);
    let id = data[0];
    match ClientMessageTypeId::try_from_u8(id) {
        None => Frame::UnknownId(id),
        Some(ClientMessageTypeId::Login) => {
            let (username, n1) = match read_pstring_at(data, 1) {
                Ok(x) => x,
                Err(_) => return Frame::Incomplete,
            };
            assert(body.skip(n1 as int) == data@.skip(1 + n1));
            let (auth_token, n2) = match read_pstring_at(data, 1 + n1) {
                Ok(x) => x,
                Err(_) => return Frame::Incomplete,
            };
            assert(body.skip(n1 + n2) == data@.skip(1 + n1 + n2));
            let (session_id, n3) = match read_pstring_at(data, 1 + n1 + n2) {
                Ok(x) => x,
                Err(_) => return Frame::Incomplete,
            };
            Frame::Message(ClientMessage::Login { username, auth_token, session_id }, 1 + n1 + n2 + n3)
        },
        Some(ClientMessageTypeId::UpdateState) => {
            let (tag, n1) = match read_pstring_at(data, 1) {
                Ok(x) => x,
                Err(_) => return Frame::Incomplete,
            };
            assert(body.skip(n1 as int) == data@.skip(1 + n1));
            let (state, n2) = match read_pbuffer_at(data, 1 + n1, MAX_STATE_SIZE_BYTES) {
                Ok(x) => x,
                Err(_) => return Frame::Incomplete,
            };
            Frame::Message(ClientMessage::UpdateState { tag, data: state }, 1 + n1 + n2)
        },
        Some(ClientMessageTypeId::StateQuery) => {
            let (tag, n1) = match read_pstring_at(data, 1) {
                Ok(x) => x,
                Err(_) => return Frame::Incomplete,
            };
            Frame::Message(ClientMessage::StateQuery { tag }, 1 + n1)
        },
        Some(ClientMessageTypeId::Failure) => {
            let (message, n1) = match read_pstring_at(data, 1) {
                Ok(x) => x,
                Err(_) => return Frame::Incomplete,
            };
            Frame::ClientFailure(message, 1 + n1)
        },
    }
}

/// The error for an unknown message id.
fn unknown_id_error(id: u8) -> (r: MessageCodecError)
    ensures
        r.message@ == unknown_id_message(id),
{
    let digits = u64_to_decimal(id as u64);
    let head = concat("Invalid message ID `", digits.as_str());
    MessageCodecError::new(concat(head.as_str(), "`"))
}

impl MessageCodec {
    /// Takes the next complete client message off the front of `src`.
    ///
    /// Returns `Ok(None)`, consuming nothing, while the message is incomplete.
    /// A client failure message is consumed and reported as an error with the
    /// client's text; an unknown message id is reported as an error without
    /// consuming anything.
    pub fn decode(&mut self, src: &mut BytesMut) -> (r: Result<Option<ClientMessage>, MessageCodecError>)
        ensures
            match decode_spec(bytes_contents(*old(src))) {
                Decoded::Incomplete => r matches Ok(None)
                    && bytes_contents(*final(src)) == bytes_contents(*old(src)),
                Decoded::Message(m, n) => r matches Ok(Some(msg)) && msg@ == m
                    && bytes_contents(*final(src)) == bytes_contents(*old(src)).skip(n),
                Decoded::ClientFailure(text, n) => r matches Err(e) && e.message@ == text
                    && bytes_contents(*final(src)) == bytes_contents(*old(src)).skip(n),
                Decoded::UnknownId(id) => r matches Err(e) && e.message@ == unknown_id_message(id)
                    && bytes_contents(*final(src)) == bytes_contents(*old(src)),
            },
    {
        let frame = parse_frame(buffer_bytes(src));
        proof {
            lemma_decoded_len(bytes_contents(*src));
        }
        match frame {
            Frame::Incomplete => Ok(None),
            Frame::Message(msg, n) => {
                buffer_advance(src, n);
                Ok(Some(msg))
            },
            Frame::ClientFailure(message, n) => {
                buffer_advance(src, n);
                Err(MessageCodecError::new(message))
            },
            Frame::UnknownId(id) => Err(unknown_id_error(id)),
        }
    }
}

/// A complete message never takes more bytes than there are.
pub proof fn lemma_decoded_len(s: Seq<u8>)
    ensures
        decode_spec(s) matches Decoded::Message(_, n) ==> 0 < n <= s.len(),
        decode_spec(s) matches Decoded::ClientFailure(_, n) ==> 0 < n <= s.len(),
{
}

// ---------------------------------------------------------------------------
// Laws of the decoder

/// The bytes a client sends for `m`.
pub open spec fn client_frame(m: ClientMessageView) -> Seq<u8> {
    match m {
        ClientMessageView::Login { username, auth_token, session_id } => seq![0u8] + pstring_bytes(
            username,
        ) + pstring_bytes(auth_token) + pstring_bytes(session_id),
        ClientMessageView::UpdateState { tag, data } => seq![1u8] + pstring_bytes(tag)
            + pbuffer_bytes(data),
        ClientMessageView::StateQuery { tag } => seq![2u8] + pstring_bytes(tag),
        ClientMessageView::Failure { message } => seq![3u8] + pstring_bytes(message),
    }
}

/// Every field of `m` fits its length prefix, and state data the size limit.
pub open spec fn client_frame_fits(m: ClientMessageView) -> bool {
    match m {
        ClientMessageView::Login { username, auth_token, session_id } => encode_utf8(username).len()
            <= 255 && encode_utf8(auth_token).len() <= 255 && encode_utf8(session_id).len() <= 255,
        ClientMessageView::UpdateState { tag, data } => encode_utf8(tag).len() <= 255 && data.len()
            <= MAX_STATE_SIZE_BYTES,
        ClientMessageView::StateQuery { tag } => encode_utf8(tag).len() <= 255,
        ClientMessageView::Failure { message } => encode_utf8(message).len() <= 255,
    }
}

/// A framed login decodes as that login.
proof fn lemma_decode_login_frame(username: Seq<char>, auth_token: Seq<char>, session_id: Seq<char>, rest: Seq<u8>)
    requires
        encode_utf8(username).len() <= 255,
        encode_utf8(auth_token).len() <= 255,
        encode_utf8(session_id).len() <= 255,
    ensures
        ({
            let m = ClientMessageView::Login { username, auth_token, session_id };
            decode_spec(client_frame(m) + rest) == Decoded::Message(m, client_frame(m).len() as int)
        }),
{
    let m = ClientMessageView::Login { username, auth_token, session_id };
    let s = client_frame(m) + rest;
    let body = s.skip(1);
    let p1 = pstring_bytes(username);
    let p2 = pstring_bytes(auth_token);
    let p3 = pstring_bytes(session_id);
    assert(body =~= p1 + (p2 + p3 + rest));
    crate::pascal::lemma_pstring_roundtrip(username, p2 + p3 + rest);
    assert(body.skip(p1.len() as int) =~= p2 + (p3 + rest));
    crate::pascal::lemma_pstring_roundtrip(auth_token, p3 + rest);
    assert(body.skip((p1.len() + p2.len()) as int) =~= p3 + rest);
    crate::pascal::lemma_pstring_roundtrip(session_id, rest);
}

/// A framed state update decodes as that update.
proof fn lemma_decode_update_frame(tag: Seq<char>, data: Seq<u8>, rest: Seq<u8>)
    requires
        encode_utf8(tag).len() <= 255,
        data.len() <= MAX_STATE_SIZE_BYTES,
    ensures
        ({
            let m = ClientMessageView::UpdateState { tag, data };
            decode_spec(client_frame(m) + rest) == Decoded::Message(m, client_frame(m).len() as int)
        }),
{
    let m = ClientMessageView::UpdateState { tag, data };
    let s = client_frame(m) + rest;
    let body = s.skip(1);
    let p1 = pstring_bytes(tag);
    let p2 = pbuffer_bytes(data);
    assert(body =~= p1 + (p2 + rest));
    crate::pascal::lemma_pstring_roundtrip(tag, p2 + rest);
    assert(body.skip(p1.len() as int) =~= p2 + rest);
    crate::pascal::lemma_pbuffer_roundtrip(data, MAX_STATE_SIZE_BYTES, rest);
}

/// Law: a message a client frames is decoded as that message, taking exactly
/// its bytes, whatever follows it in the stream (a client failure message
/// is decoded as the client's failure text).
pub proof fn lemma_decode_client_frame(m: ClientMessageView, rest: Seq<u8>)
    requires
        client_frame_fits(m),
    ensures
        decode_spec(client_frame(m) + rest) == (match m {
            ClientMessageView::Failure { message } => Decoded::ClientFailure(
                message,
                client_frame(m).len() as int,
            ),
            _ => Decoded::Message(m, client_frame(m).len() as int),
        }),
{
    let s = client_frame(m) + rest;
    let body = s.skip(1);
    match m {
        ClientMessageView::Login { username, auth_token, session_id } => {
            lemma_decode_login_frame(username, auth_token, session_id, rest);
        },
        ClientMessageView::UpdateState { tag, data } => {
            lemma_decode_update_frame(tag, data, rest);
        },
        ClientMessageView::StateQuery { tag } => {
            assert(body =~= pstring_bytes(tag) + rest);
            crate::pascal::lemma_pstring_roundtrip(tag, rest);
        },
        ClientMessageView::Failure { message } => {
            assert(body =~= pstring_bytes(message) + rest);
            crate::pascal::lemma_pstring_roundtrip(message, rest);
        },
    }
}

/// Every string field of `m` fits its length byte and its data a pascal
/// buffer: the client can frame it.
pub open spec fn client_frame_encodable(m: ClientMessageView) -> bool {
    match m {
        ClientMessageView::Login { username, auth_token, session_id } => encode_utf8(username).len()
            <= 255 && encode_utf8(auth_token).len() <= 255 && encode_utf8(session_id).len() <= 255,
        ClientMessageView::UpdateState { tag, data } => encode_utf8(tag).len() <= 255 && data.len()
            <= 0xffff,
        ClientMessageView::StateQuery { tag } => encode_utf8(tag).len() <= 255,
        ClientMessageView::Failure { message } => encode_utf8(message).len() <= 255,
    }
}

/// A proper prefix of a framed login decodes as incomplete.
proof fn lemma_login_prefix(username: Seq<char>, auth_token: Seq<char>, session_id: Seq<char>, k: int)
    requires
        encode_utf8(username).len() <= 255,
        encode_utf8(auth_token).len() <= 255,
        encode_utf8(session_id).len() <= 255,
        1 <= k < client_frame(ClientMessageView::Login { username, auth_token, session_id }).len(),
    ensures
        decode_spec(client_frame(ClientMessageView::Login { username, auth_token, session_id }).take(k)) is Incomplete,
{
    let x = client_frame(ClientMessageView::Login { username, auth_token, session_id });
    let t = x.take(k);
    let p1 = pstring_bytes(username);
    let p2 = pstring_bytes(auth_token);
    let p3 = pstring_bytes(session_id);
    assert(t[0] == 0u8);
    let body = t.skip(1);
    let k1 = k - 1;
    if k1 < p1.len() {
        assert(body =~= p1.take(k1));
        crate::pascal::lemma_pstring_proper_prefix(username, k1);
    } else {
        let k2 = k1 - p1.len();
        let r1 = (p2 + p3).take(k2);
        assert(body =~= p1 + r1);
        crate::pascal::lemma_pstring_roundtrip(username, r1);
        assert(body.skip(p1.len() as int) =~= r1);
        if k2 < p2.len() {
            assert(r1 =~= p2.take(k2));
            crate::pascal::lemma_pstring_proper_prefix(auth_token, k2);
        } else {
            let k3 = k2 - p2.len();
            let r2 = p3.take(k3);
            assert(r1 =~= p2 + r2);
            crate::pascal::lemma_pstring_roundtrip(auth_token, r2);
            assert(body.skip((p1.len() + p2.len()) as int) =~= r2);
            crate::pascal::lemma_pstring_proper_prefix(session_id, k3);
        }
    }
}

/// A proper prefix of a framed state update decodes as incomplete.
proof fn lemma_update_prefix(tag: Seq<char>, data: Seq<u8>, k: int)
    requires
        encode_utf8(tag).len() <= 255,
        data.len() <= 0xffff,
        1 <= k < client_frame(ClientMessageView::UpdateState { tag, data }).len(),
    ensures
        decode_spec(client_frame(ClientMessageView::UpdateState { tag, data }).take(k)) is Incomplete,
{
    let x = client_frame(ClientMessageView::UpdateState { tag, data });
    let t = x.take(k);
    let p1 = pstring_bytes(tag);
    let p2 = pbuffer_bytes(data);
    assert(t[0] == 1u8);
    let body = t.skip(1);
    let k1 = k - 1;
    if k1 < p1.len() {
        assert(body =~= p1.take(k1));
        crate::pascal::lemma_pstring_proper_prefix(tag, k1);
    } else {
        let k2 = k1 - p1.len();
        let r1 = p2.take(k2);
        assert(body =~= p1 + r1);
        crate::pascal::lemma_pstring_roundtrip(tag, r1);
        assert(body.skip(p1.len() as int) =~= r1);
        crate::pascal::lemma_pbuffer_proper_prefix(data, MAX_STATE_SIZE_BYTES, k2);
    }
}

/// Law: the decoder waits on every proper prefix of a message a client
/// frames: it decodes nothing there (and so consumes nothing), whatever
/// the kind of message.
pub proof fn lemma_decode_proper_prefix(m: ClientMessageView, k: int)
    requires
        client_frame_encodable(m),
        0 <= k < client_frame(m).len(),
    ensures
        decode_spec(client_frame(m).take(k)) is Incomplete,
{
    if k > 0 {
        let t = client_frame(m).take(k);
        match m {
            ClientMessageView::Login { username, auth_token, session_id } => {
                lemma_login_prefix(username, auth_token, session_id, k);
            },
            ClientMessageView::UpdateState { tag, data } => {
                lemma_update_prefix(tag, data, k);
            },
            ClientMessageView::StateQuery { tag } => {
                assert(t[0] == 2u8);
                assert(t.skip(1) =~= pstring_bytes(tag).take(k - 1));
                crate::pascal::lemma_pstring_proper_prefix(tag, k - 1);
            },
            ClientMessageView::Failure { message } => {
                assert(t[0] == 3u8);
                assert(t.skip(1) =~= pstring_bytes(message).take(k - 1));
                crate::pascal::lemma_pstring_proper_prefix(message, k - 1);
            },
        }
    }
}

/// Law: a state update whose data is over the size limit is never decoded:
/// the decoder keeps waiting, however many bytes follow.
pub proof fn lemma_decode_oversized_update(tag: Seq<char>, data: Seq<u8>, rest: Seq<u8>)
    requires
        encode_utf8(tag).len() <= 255,
        MAX_STATE_SIZE_BYTES < data.len() <= 0xffff,
    ensures
        decode_spec(client_frame(ClientMessageView::UpdateState { tag, data }) + rest) is Incomplete,
{
    let s = client_frame(ClientMessageView::UpdateState { tag, data }) + rest;
    let p1 = pstring_bytes(tag);
    let p2 = pbuffer_bytes(data);
    let body = s.skip(1);
    assert(body =~= p1 + (p2 + rest));
    crate::pascal::lemma_pstring_roundtrip(tag, p2 + rest);
    assert(body.skip(p1.len() as int) =~= p2 + rest);
    crate::pascal::lemma_pbuffer_over_limit(data, MAX_STATE_SIZE_BYTES, rest);
}

/// Law: once the front of the stream holds a complete message (or a client
/// failure, or an unknown id), more incoming bytes do not change what is
/// decoded there; only an incomplete message can change as bytes arrive.
pub proof fn lemma_decode_prefix_stable(s: Seq<u8>, more: Seq<u8>)
    requires
        !(decode_spec(s) is Incomplete),
    ensures
        decode_spec(s + more) == decode_spec(s),
{
    let t = s + more;
    assert(t[0] == s[0]);
    let body = s.skip(1);
    assert(t.skip(1) =~= body + more);
    match ClientMessageTypeId::from_id(s[0]) {
        None => {},
        Some(ClientMessageTypeId::Login) => {
            let (_, n1) = read_pstring_spec(body)->Ok_0;
            crate::pascal::lemma_pstring_prefix_stable(body, more);
            assert((body + more).skip(n1) =~= body.skip(n1) + more);
            let (_, n2) = read_pstring_spec(body.skip(n1))->Ok_0;
            crate::pascal::lemma_pstring_prefix_stable(body.skip(n1), more);
            assert((body + more).skip(n1 + n2) =~= body.skip(n1 + n2) + more);
            crate::pascal::lemma_pstring_prefix_stable(body.skip(n1 + n2), more);
        },
        Some(ClientMessageTypeId::UpdateState) => {
            let (_, n1) = read_pstring_spec(body)->Ok_0;
            crate::pascal::lemma_pstring_prefix_stable(body, more);
            assert((body + more).skip(n1) =~= body.skip(n1) + more);
            crate::pascal::lemma_pbuffer_prefix_stable(body.skip(n1), MAX_STATE_SIZE_BYTES, more);
        },
        Some(ClientMessageTypeId::StateQuery) => {
            crate::pascal::lemma_pstring_prefix_stable(body, more);
        },
        Some(ClientMessageTypeId::Failure) => {
            crate::pascal::lemma_pstring_prefix_stable(body, more);
        },
    }
}

// ---------------------------------------------------------------------------
// Encoding

/// The bytes of `entry_id`, if there is one.
pub open spec fn optional_byte(entry_id: Option<u8>) -> Seq<u8> {
    match entry_id {
        Some(b) => seq![b],
        None => Seq::empty(),
    }
}

/// The encoding of a list of delivered states, each entry being `entry_id`
/// (if any), the peer id and the state data as a pascal buffer. The flag is
/// false when some state's data does not fit a pascal buffer: the bytes then
/// end after the peer id of the first such entry.
#[verifier::opaque]
pub open spec fn encode_states(states: Seq<(PeerId, TaggedStateView)>, entry_id: Option<u8>) -> (Seq<u8>, bool)
    decreases states.len(),
{
    if states.len() == 0 {
        (Seq::empty(), true)
    } else {
        let (p, ok) = encode_states(states.drop_last(), entry_id);
        if !ok {
            (p, false)
        } else {
            let last = states.last();
            let head = p + optional_byte(entry_id) + le_u64_bytes(last.0);
            if last.1.data.len() <= 0xffff {
                (head + pbuffer_bytes(last.1.data), true)
            } else {
                (head, false)
            }
        }
    }
}

/// The encoding of a server-info message.
pub open spec fn server_info_bytes() -> Seq<u8> {
    seq![0u8] + le_u16_bytes(PROTOCOL_VERSION) + le_u16_bytes(MAX_STATE_SIZE_BYTES)
}

/// The bytes the encoder writes for `m`, and whether it succeeds. On failure
/// the bytes are those written before the field that did not fit.
pub open spec fn encode_spec(m: ServerMessageView) -> (Seq<u8>, bool) {
    match m {
        ServerMessageView::ServerInfo => (server_info_bytes(), true),
        ServerMessageView::Failure { message } => if encode_utf8(message).len() <= 255 {
            (seq![1u8] + pstring_bytes(message), true)
        } else {
            (seq![1u8], false)
        },
        ServerMessageView::UpdateState { states } => encode_states(states, Some(2u8)),
        ServerMessageView::FullSync { states } => {
            let (b, ok) = encode_states(states, None);
            (seq![3u8] + le_u16_bytes(states.len() as u16) + b, ok)
        },
    }
}

/// The text of the error the encoder reports for `m` when it fails.
pub open spec fn encode_error_text(m: ServerMessageView) -> Seq<char> {
    match m {
        ServerMessageView::Failure { .. } => "string too long"@,
        _ => "data too long"@,
    }
}

/// What the encoder may be handed: a full sync counts its states in 16 bits.
pub open spec fn encodable(m: ServerMessageView) -> bool {
    m matches ServerMessageView::FullSync { states } ==> states.len() <= 0xffff
}

/// Appends `bytes` to `out`.
fn append_bytes(out: &mut Vec<u8>, bytes: &[u8])
    ensures
        final(out)@ == old(out)@ + bytes@,
{
    let ghost before = out@;
    let mut i: usize = 0;
    while i < bytes.len()
        invariant
            i <= bytes@.len(),
            out@ == before + bytes@.subrange(0, i as int),
        decreases bytes@.len() - i,
    {
        out.push(bytes[i]);
        i = i + 1;
    }
    assert(bytes@.subrange(0, bytes@.len() as int) == bytes@);
}

/// One step of [`encode_states`]: the encoding of the first `i + 1` entries
/// extends that of the first `i` by entry `i`.
proof fn lemma_encode_states_step(sv: Seq<(PeerId, TaggedStateView)>, i: int, entry_id: Option<u8>)
    requires
        0 <= i < sv.len(),
        encode_states(sv.take(i), entry_id).1,
    ensures
        ({
            let p = encode_states(sv.take(i), entry_id).0;
            let head = p + optional_byte(entry_id) + le_u64_bytes(sv[i].0);
            encode_states(sv.take(i + 1), entry_id) == if sv[i].1.data.len() <= 0xffff {
                (head + pbuffer_bytes(sv[i].1.data), true)
            } else {
                (head, false)
            }
        }),
{
    reveal(encode_states);
    assert(sv.take(i + 1).drop_last() =~= sv.take(i));
    assert(sv.take(i + 1).last() == sv[i]);
}

/// Once an entry fails, longer prefixes encode the same way.
proof fn lemma_encode_states_stuck(sv: Seq<(PeerId, TaggedStateView)>, j: int, k: int, entry_id: Option<u8>)
    requires
        0 <= j <= k <= sv.len(),
        !encode_states(sv.take(j), entry_id).1,
    ensures
        encode_states(sv.take(k), entry_id) == encode_states(sv.take(j), entry_id),
    decreases k - j,
{
    if k > j {
        lemma_encode_states_stuck(sv, j, k - 1, entry_id);
        reveal(encode_states);
        assert(sv.take(k).drop_last() =~= sv.take(k - 1));
    }
}

/// Encoding the states `s1 + s2` gives the encoding of `s1` followed by
/// that of `s2`, when `s1` encodes in full.
pub proof fn lemma_encode_states_concat(
    s1: Seq<(PeerId, TaggedStateView)>,
    s2: Seq<(PeerId, TaggedStateView)>,
    entry_id: Option<u8>,
)
    requires
        encode_states(s1, entry_id).1,
    ensures
        encode_states(s1 + s2, entry_id) == (
            encode_states(s1, entry_id).0 + encode_states(s2, entry_id).0,
            encode_states(s2, entry_id).1,
        ),
    decreases s2.len(),
{
    reveal(encode_states);
    let p1 = encode_states(s1, entry_id).0;
    if s2.len() == 0 {
        assert(s1 + s2 =~= s1);
        assert(p1 + Seq::<u8>::empty() =~= p1);
    } else {
        let s2p = s2.drop_last();
        lemma_encode_states_concat(s1, s2p, entry_id);
        assert((s1 + s2).drop_last() =~= s1 + s2p);
        assert((s1 + s2).last() == s2.last());
        let p2 = encode_states(s2p, entry_id).0;
        let last = s2.last();
        assert(p1 + p2 + optional_byte(entry_id) + le_u64_bytes(last.0) =~= p1 + (p2 + optional_byte(entry_id)
            + le_u64_bytes(last.0)));
        assert(p1 + p2 + optional_byte(entry_id) + le_u64_bytes(last.0) + pbuffer_bytes(last.1.data) =~= p1 + (p2
            + optional_byte(entry_id) + le_u64_bytes(last.0) + pbuffer_bytes(last.1.data)));
    }
}

/// Every state's data fits a pascal buffer.
pub open spec fn states_fit(states: Seq<(PeerId, TaggedStateView)>) -> bool {
    forall|i: int| 0 <= i < states.len() ==> (#[trigger] states[i]).1.data.len() <= 0xffff
}

/// A list of states encodes in full exactly when every state's data fits.
proof fn lemma_encode_states_ok(states: Seq<(PeerId, TaggedStateView)>, entry_id: Option<u8>)
    ensures
        encode_states(states, entry_id).1 <==> states_fit(states),
    decreases states.len(),
{
    reveal(encode_states);
    if states.len() > 0 {
        let prefix = states.drop_last();
        lemma_encode_states_ok(prefix, entry_id);
        assert(forall|i: int| 0 <= i < prefix.len() ==> #[trigger] prefix[i] == states[i]);
        assert(states[states.len() - 1] == states.last());
        if states_fit(prefix) && states.last().1.data.len() <= 0xffff {
            assert forall|i: int| 0 <= i < states.len() implies (#[trigger] states[i]).1.data.len() <= 0xffff by {
                if i < prefix.len() {
                    assert(prefix[i] == states[i]);
                }
            }
        }
    }
}

/// Which messages the encoder can write in full.
pub open spec fn encode_succeeds(m: ServerMessageView) -> bool {
    match m {
        ServerMessageView::ServerInfo => true,
        ServerMessageView::Failure { message } => encode_utf8(message).len() <= 255,
        ServerMessageView::UpdateState { states } => states_fit(states),
        ServerMessageView::FullSync { states } => states_fit(states),
    }
}

/// Law: the encoder fails exactly on a failure message whose text is longer
/// than 255 bytes of UTF-8, and on an update or a full sync with a state
/// whose data is longer than 65535 bytes; every other message is encoded.
pub proof fn lemma_encode_fails_exactly(m: ServerMessageView)
    ensures
        encode_spec(m).1 <==> encode_succeeds(m),
{
    match m {
        ServerMessageView::UpdateState { states } => lemma_encode_states_ok(states, Some(2u8)),
        ServerMessageView::FullSync { states } => lemma_encode_states_ok(states, None),
        _ => {},
    }
}

/// Law: an update of the states `s1 + s2` is encoded as the update of `s1`
/// followed by the update of `s2`, when the first encodes in full (the
/// bytes of each entry carry the entry marker, so updates concatenate); an
/// update of no states encodes as nothing and succeeds.
pub proof fn lemma_update_encoding_concat(s1: Seq<(PeerId, TaggedStateView)>, s2: Seq<(PeerId, TaggedStateView)>)
    ensures
        encode_spec(ServerMessageView::UpdateState { states: Seq::empty() }) == (Seq::<u8>::empty(), true),
        encode_spec(ServerMessageView::UpdateState { states: s1 }).1 ==> encode_spec(
            ServerMessageView::UpdateState { states: s1 + s2 },
        ) == (
            encode_spec(ServerMessageView::UpdateState { states: s1 }).0 + encode_spec(
                ServerMessageView::UpdateState { states: s2 },
            ).0,
            encode_spec(ServerMessageView::UpdateState { states: s2 }).1,
        ),
{
    reveal(encode_states);
    if encode_states(s1, Some(2u8)).1 {
        lemma_encode_states_concat(s1, s2, Some(2u8));
    }
}

/// Appends one delivered state: `entry_id` (if any), the peer id and the data
/// as a pascal buffer; fails after the peer id when the data does not fit.
fn encode_entry(out: &mut Vec<u8>, entry_id: Option<u8>, peer_id: PeerId, data: &Vec<u8>) -> (r: Result<(), PascalError>)
    ensures
        r is Ok <==> data@.len() <= 0xffff,
        r is Ok ==> final(out)@ == old(out)@ + optional_byte(entry_id) + le_u64_bytes(peer_id) + pbuffer_bytes(data@),
        r is Err ==> final(out)@ == old(out)@ + optional_byte(entry_id) + le_u64_bytes(peer_id),
{
    let ghost before = out@;
    match entry_id {
        Some(b) => out.push(b),
        None => {},
    }
    assert(out@ =~= before + optional_byte(entry_id));
    let id_bytes = write_le_u64(peer_id);
    append_bytes(out, &id_bytes);
    write_pbuffer(out, data.as_slice())
}

/// Appends the entries of `states` to `out`, see [`encode_states`].
fn encode_states_into(states: &Vec<(PeerId, TaggedState)>, entry_id: Option<u8>, out: &mut Vec<u8>) -> (r: Result<(), PascalError>)
    ensures
        final(out)@ == old(out)@ + encode_states(states_view(states@), entry_id).0,
        r is Ok <==> encode_states(states_view(states@), entry_id).1,
        r matches Err(e) ==> e == PascalError::DataTooLong,
{
    let ghost before = out@;
    let ghost sv = states_view(states@);
    let mut i: usize = 0;
    assert(sv.take(0) =~= Seq::<(PeerId, TaggedStateView)>::empty());
    assert(encode_states(sv.take(0), entry_id) == (Seq::<u8>::empty(), true)) by {
        reveal(encode_states);
    }
    while i < states.len()
        invariant
            i <= states@.len(),
            before == old(out)@,
            sv == states_view(states@),
            sv.len() == states@.len(),
            out@ == before + encode_states(sv.take(i as int), entry_id).0,
            encode_states(sv.take(i as int), entry_id).1,
        decreases states@.len() - i,
    {
        proof {
            lemma_encode_states_step(sv, i as int, entry_id);
        }
        assert(sv[i as int] == (states@[i as int].0, states@[i as int].1@));
        let res = encode_entry(out, entry_id, states[i].0, &states[i].1.data);
        if res.is_err() {
            proof {
                assert(out@ =~= before + encode_states(sv.take(i + 1), entry_id).0);
                lemma_encode_states_stuck(sv, i + 1, sv.len() as int, entry_id);
                assert(sv.take(sv.len() as int) =~= sv);
            }
            return Err(PascalError::DataTooLong);
        }
        assert(out@ =~= before + encode_states(sv.take(i + 1), entry_id).0);
        i = i + 1;
    }
    assert(sv.take(states@.len() as int) =~= sv);
    Ok(())
}

/// Appends the encoding of `msg` to `out`, see [`encode_spec`].
pub fn encode_message(msg: &ServerMessage, out: &mut Vec<u8>) -> (r: Result<(), PascalError>)
    requires
        encodable(msg@),
    ensures
        final(out)@ == old(out)@ + encode_spec(msg@).0,
        r is Ok <==> encode_spec(msg@).1,
        r matches Err(e) ==> (msg@ is Failure ==> e == PascalError::StringTooLong) && (!(msg@ is Failure) ==> e == PascalError::DataTooLong),
{
    match msg {
        ServerMessage::ServerInfo {  } => {
            out.push(ServerMessageTypeId::ServerInfo.id());
            let v = write_le_u16(PROTOCOL_VERSION);
            append_bytes(out, &v);
            let m = write_le_u16(MAX_STATE_SIZE_BYTES);
            append_bytes(out, &m);
            Ok(())
        },
        ServerMessage::Failure { message } => {
            out.push(ServerMessageTypeId::Failure.id());
            write_pstring(out, message.as_str())
        },
        ServerMessage::UpdateState { states } => {
            encode_states_into(states, Some(ServerMessageTypeId::UpdateState.id()), out)
        },
        ServerMessage::FullSync { states } => {
            out.push(ServerMessageTypeId::FullSync.id());
            let count = write_le_u16(states.len() as u16);
            append_bytes(out, &count);
            encode_states_into(states, None, out)
        },
    }
}

impl MessageCodec {
    /// Appends the encoding of `data` to `buf`, see [`encode_spec`]. When a
    /// string or state does not fit its length prefix, the bytes written up
    /// to that field stay in `buf` and the error says which field it was.
    pub fn encode(&mut self, data: ServerMessage, buf: &mut BytesMut) -> (r: Result<(), MessageCodecError>)
        requires
            encodable(data@),
            bytes_contents(*old(buf)).len() + encode_spec(data@).0.len() <= isize::MAX,
        ensures
            bytes_contents(*final(buf)) == bytes_contents(*old(buf)) + encode_spec(data@).0,
            r is Ok <==> encode_spec(data@).1,
            r is Ok <==> encode_succeeds(data@),
            r matches Err(e) ==> e.message@ == encode_error_text(data@),
    {
        proof {
            lemma_encode_fails_exactly(data@);
        }
        let mut out: Vec<u8> = Vec::new();
        let res = encode_message(&data, &mut out);
        assert(out@ =~= encode_spec(data@).0);
        buffer_extend(buf, out.as_slice());
        match res {
            Ok(()) => Ok(()),
            Err(PascalError::StringTooLong) => Err(MessageCodecError::new(String::from_str("string too long"))),
            Err(_) => Err(MessageCodecError::new(String::from_str("data too long"))),
        }
    }
}

} // verus!
