use bytes::BytesMut;
use haunted_server::codec::{
    ClientMessage, ClientMessageTypeId, MessageCodec, ServerMessage, ServerMessageTypeId,
    MAX_STATE_SIZE_BYTES, PROTOCOL_VERSION,
};
use haunted_server::pascal::WritePascalExt;
use haunted_server::server::TaggedState;
use haunted_server::text::u64_to_decimal;

fn login_frame() -> Vec<u8> {
    let mut b = vec![0u8];
    b.write_pascal_string("user").unwrap();
    b.write_pascal_string("token").unwrap();
    b.write_pascal_string("session/a").unwrap();
    b
}

#[test]
fn decode_login_and_keep_rest() {
    let mut frame = login_frame();
    let len = frame.len();
    frame.push(2);
    let mut src = BytesMut::from(&frame[..]);
    let mut codec = MessageCodec::new();
    match codec.decode(&mut src) {
        Ok(Some(ClientMessage::Login { username, auth_token, session_id })) => {
            assert_eq!(username, "user");
            assert_eq!(auth_token, "token");
            assert_eq!(session_id, "session/a");
        }
        _ => panic!("expected a login"),
    }
    assert_eq!(&src[..], &frame[len..]);
}

#[test]
fn decode_incomplete_consumes_nothing() {
    let frame = login_frame();
    let mut codec = MessageCodec::new();
    for cut in 0..frame.len() {
        let mut src = BytesMut::from(&frame[..cut]);
        assert!(matches!(codec.decode(&mut src), Ok(None)));
        assert_eq!(src.len(), cut);
    }
}

#[test]
fn decode_update_state_and_state_query() {
    let mut b = vec![1u8];
    b.write_pascal_string("tag").unwrap();
    b.write_pascal_buffer(&[1, 2, 3]).unwrap();
    b.push(2);
    b.write_pascal_string("tag").unwrap();
    let mut src = BytesMut::from(&b[..]);
    let mut codec = MessageCodec::new();
    match codec.decode(&mut src) {
        Ok(Some(ClientMessage::UpdateState { tag, data })) => {
            assert_eq!(tag, "tag");
            assert_eq!(data, vec![1, 2, 3]);
        }
        _ => panic!("expected a state update"),
    }
    match codec.decode(&mut src) {
        Ok(Some(ClientMessage::StateQuery { tag })) => assert_eq!(tag, "tag"),
        _ => panic!("expected a state query"),
    }
    assert!(src.is_empty());
}

#[test]
fn decode_oversized_state_waits() {
    let mut b = vec![1u8];
    b.write_pascal_string("").unwrap();
    b.write_pascal_buffer(&vec![0u8; MAX_STATE_SIZE_BYTES as usize + 1]).unwrap();
    let mut src = BytesMut::from(&b[..]);
    assert!(matches!(MessageCodec::new().decode(&mut src), Ok(None)));
    assert_eq!(src.len(), b.len());
}

#[test]
fn decode_client_failure_is_error() {
    let mut b = vec![3u8];
    b.write_pascal_string("oops").unwrap();
    let mut src = BytesMut::from(&b[..]);
    let err = MessageCodec::new().decode(&mut src).err().unwrap();
    assert_eq!(err.message, "oops");
    assert!(src.is_empty());
}

#[test]
fn decode_invalid_id_is_error() {
    let mut src = BytesMut::from(&[7u8, 1, 2][..]);
    let err = MessageCodec::new().decode(&mut src).err().unwrap();
    assert_eq!(err.message, "Invalid message ID `7`");
    assert_eq!(src.len(), 3);
    let mut src = BytesMut::from(&[200u8][..]);
    let err = MessageCodec::new().decode(&mut src).err().unwrap();
    assert_eq!(err.message, "Invalid message ID `200`");
}

#[test]
fn decode_empty_waits() {
    let mut src = BytesMut::new();
    assert!(matches!(MessageCodec::new().decode(&mut src), Ok(None)));
}

#[test]
fn message_ids() {
    assert_eq!(ClientMessageTypeId::try_from_u8(0), Some(ClientMessageTypeId::Login));
    assert_eq!(ClientMessageTypeId::try_from_u8(3), Some(ClientMessageTypeId::Failure));
    assert_eq!(ClientMessageTypeId::try_from_u8(4), None);
    assert_eq!(ServerMessageTypeId::FullSync.id(), 3);
    assert_eq!(ServerMessageTypeId::ServerInfo.id(), 0);
}

#[test]
fn encode_server_info() {
    let mut buf = BytesMut::new();
    assert!(MessageCodec::new().encode(ServerMessage::ServerInfo {}, &mut buf).is_ok());
    assert_eq!(PROTOCOL_VERSION, 0);
    assert_eq!(&buf[..], &[0u8, 0, 0, 0x88, 0x13]);
}

#[test]
fn encode_failure() {
    let mut buf = BytesMut::from(&[9u8][..]);
    let msg = ServerMessage::Failure { message: "no".into() };
    assert!(MessageCodec::new().encode(msg, &mut buf).is_ok());
    assert_eq!(&buf[..], &[9u8, 1, 2, b'n', b'o']);
}

#[test]
fn encode_failure_too_long() {
    let mut buf = BytesMut::new();
    let msg = ServerMessage::Failure { message: "z".repeat(300) };
    let err = MessageCodec::new().encode(msg, &mut buf).err().unwrap();
    assert_eq!(err.message, "string too long");
    assert_eq!(&buf[..], &[1u8]);
}

fn st(data: Vec<u8>) -> TaggedState {
    TaggedState { tag: "t".into(), data }
}

#[test]
fn encode_update_states() {
    let mut buf = BytesMut::new();
    let msg = ServerMessage::UpdateState { states: vec![(0x0102, st(vec![7])), (5, st(vec![]))] };
    assert!(MessageCodec::new().encode(msg, &mut buf).is_ok());
    assert_eq!(
        &buf[..],
        &[
            2u8, 0x02, 0x01, 0, 0, 0, 0, 0, 0, 1, 0, 7, //
            2, 5, 0, 0, 0, 0, 0, 0, 0, 0, 0
        ]
    );
}

#[test]
fn encode_empty_update_writes_nothing() {
    let mut buf = BytesMut::new();
    assert!(MessageCodec::new()
        .encode(ServerMessage::UpdateState { states: vec![] }, &mut buf)
        .is_ok());
    assert!(buf.is_empty());
}

#[test]
fn encode_full_sync() {
    let mut buf = BytesMut::new();
    let msg = ServerMessage::FullSync {
        states: vec![(u64::MAX, st(vec![1, 2])), (3, st(vec![3]))],
    };
    assert!(MessageCodec::new().encode(msg, &mut buf).is_ok());
    assert_eq!(
        &buf[..],
        &[
            3u8, 2, 0, //
            255, 255, 255, 255, 255, 255, 255, 255, 2, 0, 1, 2, //
            3, 0, 0, 0, 0, 0, 0, 0, 1, 0, 3
        ]
    );
}

#[test]
fn encode_state_too_long_keeps_prefix() {
    let mut buf = BytesMut::new();
    let msg = ServerMessage::UpdateState {
        states: vec![(1, st(vec![4])), (2, st(vec![0; 0x10000])), (3, st(vec![5]))],
    };
    let err = MessageCodec::new().encode(msg, &mut buf).err().unwrap();
    assert_eq!(err.message, "data too long");
    assert_eq!(
        &buf[..],
        &[2u8, 1, 0, 0, 0, 0, 0, 0, 0, 1, 0, 4, 2, 2, 0, 0, 0, 0, 0, 0, 0]
    );
}

fn state(id: u64, tag: &str, data: &[u8]) -> (u64, TaggedState) {
    (id, TaggedState { tag: tag.into(), data: data.to_vec() })
}

#[test]
fn update_encoding_concatenates() {
    let mut codec = MessageCodec::new();
    let mut whole = BytesMut::new();
    let all = vec![state(1, "a", &[1, 2]), state(2, "b", &[]), state(3, "c", &[9])];
    codec.encode(ServerMessage::UpdateState { states: all }, &mut whole).unwrap();
    let mut parts = BytesMut::new();
    codec
        .encode(ServerMessage::UpdateState { states: vec![state(1, "a", &[1, 2])] }, &mut parts)
        .unwrap();
    codec
        .encode(
            ServerMessage::UpdateState { states: vec![state(2, "b", &[]), state(3, "c", &[9])] },
            &mut parts,
        )
        .unwrap();
    assert_eq!(&whole[..], &parts[..]);
    let mut empty = BytesMut::from(&[7u8][..]);
    codec.encode(ServerMessage::UpdateState { states: vec![] }, &mut empty).unwrap();
    assert_eq!(&empty[..], &[7u8]);
}

#[test]
fn every_proper_prefix_of_each_frame_waits() {
    let mut update = vec![1u8];
    update.write_pascal_string("t").unwrap();
    update.write_pascal_buffer(&[4, 5, 6]).unwrap();
    let mut query = vec![2u8];
    query.write_pascal_string("tag").unwrap();
    let mut failure = vec![3u8];
    failure.write_pascal_string("oops").unwrap();
    let mut big = vec![1u8];
    big.write_pascal_string("").unwrap();
    big.write_pascal_buffer(&vec![0u8; 6000]).unwrap();
    for frame in [login_frame(), update, query, failure, big.clone()] {
        let mut codec = MessageCodec::new();
        for cut in 0..frame.len() {
            let mut src = BytesMut::from(&frame[..cut]);
            assert!(matches!(codec.decode(&mut src), Ok(None)));
            assert_eq!(&src[..], &frame[..cut]);
        }
    }
    let mut more = big.clone();
    more.extend_from_slice(&login_frame());
    let mut src = BytesMut::from(&more[..]);
    assert!(matches!(MessageCodec::new().decode(&mut src), Ok(None)));
    assert_eq!(src.len(), more.len());
}

#[test]
fn decimal_rendering() {
    assert_eq!(u64_to_decimal(0), "0");
    assert_eq!(u64_to_decimal(9), "9");
    assert_eq!(u64_to_decimal(10), "10");
    assert_eq!(u64_to_decimal(1234567890), "1234567890");
    assert_eq!(u64_to_decimal(u64::MAX), u64::MAX.to_string());
}

#[test]
fn encoder_fails_exactly_on_oversized_fields() {
    let mut codec = MessageCodec::new();
    let mut buf = BytesMut::new();
    assert!(codec.encode(ServerMessage::ServerInfo {}, &mut buf).is_ok());
    assert!(codec.encode(ServerMessage::Failure { message: "x".repeat(255) }, &mut buf).is_ok());
    assert!(codec.encode(ServerMessage::Failure { message: "x".repeat(256) }, &mut buf).is_err());
    let fits = vec![state(1, "a", &vec![0u8; 0xffff])];
    assert!(codec.encode(ServerMessage::FullSync { states: fits }, &mut buf).is_ok());
    let over = vec![state(1, "a", &[1]), state(2, "b", &vec![0u8; 0x10000])];
    let e = codec.encode(ServerMessage::FullSync { states: over }, &mut buf).unwrap_err();
    assert_eq!(e.message, "data too long");
    let over = vec![state(3, "c", &vec![0u8; 0x10000])];
    assert!(codec.encode(ServerMessage::UpdateState { states: over }, &mut buf).is_err());
}
