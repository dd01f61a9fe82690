# haunted_server

A state-sharing server for game sessions. Clients log into a named session,
publish tagged state blobs and receive the states of the other peers of their
session, either as incremental updates or, on request, as a full sync of the
states with a given tag.

The library in `src/` is verified with Verus:

- `pascal`: length-prefixed strings and buffers, with read-after-write laws;
- `codec`: the client and server messages on the wire, the streaming decoder
  and the encoder, specified byte for byte;
- `server`: sessions, peers and dirty-state tracking, with the invariant every
  operation keeps and the laws of joining, dropping and publishing; a peer is
  linked to one session instance (an id and a generation), so a session that
  is purged and created again under the same id is a new one;
- `connection`: what one connection does on a message, a delivery tick or the
  manager's answer to a login;
- `manager`: the bodies and URLs of the session manager's HTTP API;
- `test_stream`: a scripted byte stream;
- `endian`, `buffer`, `text`: the calls into `byteorder`, `bytes` and std,
  each with the contract it is trusted to meet, beside the verified decimal
  rendering and string joining.

`app/` is the program around it: command line, sockets, timers, HTTP and
serialization.
