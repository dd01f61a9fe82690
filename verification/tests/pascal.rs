use bytes::BytesMut;
use haunted_server::pascal::{PascalError, ReadPascalExt, WritePascalExt};

fn hello_bytes() -> Vec<u8> {
    let mut buf: Vec<u8> = Vec::new();
    buf.write_pascal_string("hello").unwrap();
    buf
}

fn buffer_bytes() -> Vec<u8> {
    let mut buf: Vec<u8> = Vec::new();
    buf.write_pascal_buffer(&[1, 2, 3, 4]).unwrap();
    buf
}

#[test]
fn test_write_pascal_string() {
    let buf = hello_bytes();

    assert_eq!(buf.len(), 6);
    assert_eq!(buf[0], 5);
    assert_eq!(char::from(buf[1]), 'h');
    assert_eq!(char::from(buf[2]), 'e');
    assert_eq!(char::from(buf[3]), 'l');
    assert_eq!(char::from(buf[4]), 'l');
    assert_eq!(char::from(buf[5]), 'o');
}

#[test]
fn test_write_pascal_string_too_long() {
    let mut buf: Vec<u8> = Vec::new();
    assert!(buf.write_pascal_string(&"x".repeat(256)).is_err());
}

#[test]
fn test_read_pascal_string() {
    let mut r = BytesMut::from(&hello_bytes()[..]);
    assert_eq!(r.read_pascal_string().unwrap(), "hello");
}

#[test]
fn test_read_pascal_string_too_short() {
    let mut buf = BytesMut::from(&hello_bytes()[..]);
    buf = buf.split_off(1);

    assert!(buf.read_pascal_string().is_err());
}

#[test]
fn test_write_pascal_buffer() {
    let buf = buffer_bytes();

    assert_eq!(buf.len(), 6);
    assert_eq!(buf[0], 4);
    assert_eq!(buf[1], 0);
    assert_eq!(buf[2], 1);
    assert_eq!(buf[3], 2);
    assert_eq!(buf[4], 3);
    assert_eq!(buf[5], 4);
}

#[test]
fn test_write_pascal_buffer_too_long() {
    let mut buf: Vec<u8> = Vec::new();
    assert!(buf
        .write_pascal_buffer(&[1u8].repeat(u16::MAX as usize + 1))
        .is_err());
}

#[test]
fn test_read_pascal_buffer() {
    let mut r = BytesMut::from(&buffer_bytes()[..]);
    assert_eq!(r.read_pascal_buffer(5000).unwrap(), [1, 2, 3, 4]);
}

#[test]
fn test_read_pascal_buffer_too_short() {
    let mut buf = BytesMut::from(&buffer_bytes()[..]);
    buf = buf.split_off(1);

    assert!(buf.read_pascal_buffer(500).is_err());
}

#[test]
fn pascal_string_error_kinds_and_consumption() {
    // Incomplete: what was there is consumed.
    let mut short = BytesMut::from(&[3u8, b'a', b'b'][..]);
    assert_eq!(short.read_pascal_string(), Err(PascalError::UnexpectedEof));
    assert!(short.is_empty());
    // Invalid UTF-8: the length byte and the announced bytes are consumed.
    let mut bad = BytesMut::from(&[2u8, 0xff, 0xfe, 7][..]);
    let e = bad.read_pascal_string().unwrap_err();
    assert_eq!(e, PascalError::InvalidUtf8 { valid_up_to: 0, error_len: Some(1) });
    assert_eq!(e.message(), "invalid utf-8 sequence of 1 bytes from index 0");
    assert_eq!(&bad[..], &[7u8]);
    // Success consumes exactly the string.
    let mut two = BytesMut::from(&[2u8, b'h', b'i', 9][..]);
    assert_eq!(two.read_pascal_string().unwrap(), "hi");
    assert_eq!(&two[..], &[9u8]);
    // Empty input.
    let mut empty = BytesMut::new();
    assert_eq!(empty.read_pascal_string(), Err(PascalError::UnexpectedEof));
}

#[test]
fn pascal_string_roundtrip_multibyte() {
    let mut buf: Vec<u8> = Vec::new();
    buf.write_pascal_string("héllo wörld").unwrap();
    assert_eq!(buf[0] as usize, "héllo wörld".len());
    buf.push(42);
    let mut r = BytesMut::from(&buf[..]);
    assert_eq!(r.read_pascal_string().unwrap(), "héllo wörld");
    assert_eq!(&r[..], &[42u8]);
}

#[test]
fn pascal_string_limit_is_255_bytes() {
    let mut buf: Vec<u8> = Vec::new();
    assert!(buf.write_pascal_string(&"y".repeat(255)).is_ok());
    assert_eq!(buf.len(), 256);
    let mut other: Vec<u8> = vec![7];
    assert_eq!(
        other.write_pascal_string(&"é".repeat(128)),
        Err(PascalError::StringTooLong)
    );
    assert_eq!(other, vec![7]);
}

#[test]
fn pascal_buffer_size_limit_on_read() {
    let mut buf: Vec<u8> = Vec::new();
    buf.write_pascal_buffer(&[5u8; 10]).unwrap();
    let mut r = BytesMut::from(&buf[..]);
    assert_eq!(
        r.read_pascal_buffer(9),
        Err(PascalError::SizeExceedsMaximum { size: 10, max_size: 9 })
    );
    // Only the two length bytes are consumed.
    assert_eq!(r.len(), 10);
    assert_eq!(&r[..], &[5u8; 10]);
}

#[test]
fn pascal_buffer_oversized_length_message() {
    let mut r = BytesMut::from(&[5u8, 0, 1, 2, 3, 4, 5][..]);
    let e = r.read_pascal_buffer(4).unwrap_err();
    assert_eq!(e, PascalError::SizeExceedsMaximum { size: 5, max_size: 4 });
    assert_eq!(e.message(), "sent data size 5 exceeds maximum 4");
    assert_eq!(&r[..], &[1u8, 2, 3, 4, 5]);
}

#[test]
fn pascal_buffer_short_input_consumes_all() {
    let mut one = BytesMut::from(&[4u8][..]);
    assert_eq!(one.read_pascal_buffer(10), Err(PascalError::UnexpectedEof));
    assert!(one.is_empty());
    let mut part = BytesMut::from(&[4u8, 0, 1, 2][..]);
    assert_eq!(part.read_pascal_buffer(10), Err(PascalError::UnexpectedEof));
    assert!(part.is_empty());
}

#[test]
fn pascal_error_messages() {
    assert_eq!(PascalError::UnexpectedEof.message(), "failed to fill whole buffer");
    assert_eq!(PascalError::StringTooLong.message(), "string too long");
    assert_eq!(PascalError::DataTooLong.message(), "data too long");
    assert_eq!(
        PascalError::SizeExceedsMaximum { size: 65535, max_size: 0 }.message(),
        "sent data size 65535 exceeds maximum 0"
    );
}

#[test]
fn pascal_buffer_little_endian_length() {
    let mut buf: Vec<u8> = Vec::new();
    buf.write_pascal_buffer(&vec![0u8; 0x0102]).unwrap();
    assert_eq!(buf[0], 0x02);
    assert_eq!(buf[1], 0x01);
    assert_eq!(buf.len(), 0x0102 + 2);
    let mut r = BytesMut::from(&buf[..]);
    assert_eq!(r.read_pascal_buffer(u16::MAX).unwrap().len(), 0x0102);
}

#[test]
fn pascal_buffer_too_long_leaves_output() {
    let mut buf: Vec<u8> = vec![1, 2];
    assert_eq!(
        buf.write_pascal_buffer(&vec![0u8; 0x10000]),
        Err(PascalError::DataTooLong)
    );
    assert_eq!(buf, vec![1, 2]);
}

#[test]
fn pascal_string_incomplete_utf8_message() {
    let mut r = BytesMut::from(&[3u8, b'a', 0xe2, 0x82, 5][..]);
    let e = r.read_pascal_string().unwrap_err();
    assert_eq!(e, PascalError::InvalidUtf8 { valid_up_to: 1, error_len: None });
    assert_eq!(e.message(), "incomplete utf-8 byte sequence from index 1");
    assert_eq!(
        e.message(),
        String::from_utf8(vec![b'a', 0xe2, 0x82]).unwrap_err().to_string()
    );
    assert_eq!(&r[..], &[5u8]);
}
