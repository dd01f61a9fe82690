//! Length-prefixed ("Pascal") strings and buffers.
//!
//! A pascal string is one length byte followed by that many bytes of UTF-8;
//! a pascal buffer is a little-endian `u16` length followed by that many
//! bytes.

use crate::buffer::{buffer_advance, buffer_bytes, bytes_contents};
use crate::endian::{le_u16_bytes, le_u16_value, read_le_u16, write_le_u16};
use crate::text::{
    concat, decimal, lemma_utf8_prefix_end_unique, string_from_utf8, u64_to_decimal, utf8_error_len,
    utf8_error_text, utf8_valid_up_to,
};
use bytes::BytesMut;
use vstd::prelude::*;
use vstd::utf8::{decode_utf8, encode_utf8, valid_utf8};

verus! {

/// Why a pascal string or buffer could not be read or written.
#[derive(Debug, Clone, Copy, PartialEq, Eq, Structural)]
pub enum PascalError {
    /// The input ended before the value was complete.
    UnexpectedEof,
    /// The string bytes are not valid UTF-8: they are up to `valid_up_to`,
    /// then comes an invalid sequence of `error_len` bytes, or (with `None`)
    /// the bytes end inside a sequence.
    InvalidUtf8 { valid_up_to: usize, error_len: Option<usize> },
    /// A buffer announced more bytes than the reader accepts.
    SizeExceedsMaximum { size: u16, max_size: u16 },
    /// A string to write is longer than 255 bytes.
    StringTooLong,
    /// A buffer to write is longer than 65535 bytes.
    DataTooLong,
}

/// The text of an error, as it is reported.
pub open spec fn pascal_error_text(e: PascalError) -> Seq<char> {
    match e {
        PascalError::UnexpectedEof => "failed to fill whole buffer"@,
        PascalError::InvalidUtf8 { valid_up_to, error_len } => utf8_error_text(valid_up_to, error_len),
        PascalError::SizeExceedsMaximum { size, max_size } => "sent data size "@ + decimal(size as nat)
            + " exceeds maximum "@ + decimal(max_size as nat),
        PascalError::StringTooLong => "string too long"@,
        PascalError::DataTooLong => "data too long"@,
    }
}

impl PascalError {
    /// The error's text, see [`pascal_error_text`].
    pub fn message(&self) -> (r: String)
        ensures
            r@ == pascal_error_text(*self),
    {
        match self {
            PascalError::UnexpectedEof => String::from_str("failed to fill whole buffer"),
            PascalError::InvalidUtf8 { valid_up_to, error_len } => {
                let at = u64_to_decimal(*valid_up_to as u64);
                match error_len {
                    Some(n) => {
                        let head = concat("invalid utf-8 sequence of ", u64_to_decimal(*n as u64).as_str());
                        concat(concat(head.as_str(), " bytes from index ").as_str(), at.as_str())
                    },
                    None => concat("incomplete utf-8 byte sequence from index ", at.as_str()),
                }
            },
            PascalError::SizeExceedsMaximum { size, max_size } => {
                let head = concat("sent data size ", u64_to_decimal(*size as u64).as_str());
                let tail = concat(" exceeds maximum ", u64_to_decimal(*max_size as u64).as_str());
                concat(head.as_str(), tail.as_str())
            },
            PascalError::StringTooLong => String::from_str("string too long"),
            PascalError::DataTooLong => String::from_str("data too long"),
        }
    }
}

/// How many bytes reading a pascal string from the front of `s` consumes:
/// the length byte and the announced bytes; when the input ends early,
/// all of it.
pub open spec fn pstring_consumed(s: Seq<u8>) -> int {
    if s.len() < 1 {
        0
    } else if s.len() < 1 + s[0] {
        s.len() as int
    } else {
        1 + s[0]
    }
}

/// How many bytes reading a pascal buffer from the front of `s` consumes:
/// the two length bytes, and the announced bytes unless their number is
/// over the limit; when the input ends early, all of it.
pub open spec fn pbuffer_consumed(s: Seq<u8>, max_size: u16) -> int {
    if s.len() < 2 {
        s.len() as int
    } else {
        let size = le_u16_value(s[0], s[1]);
        if size > max_size {
            2
        } else if s.len() < 2 + size {
            s.len() as int
        } else {
            2 + size
        }
    }
}

/// The encoding of a string of at most 255 UTF-8 bytes.
pub open spec fn pstring_bytes(chars: Seq<char>) -> Seq<u8> {
    seq![encode_utf8(chars).len() as u8] + encode_utf8(chars)
}

/// The encoding of a buffer of at most 65535 bytes.
pub open spec fn pbuffer_bytes(data: Seq<u8>) -> Seq<u8> {
    le_u16_bytes(data.len() as u16) + data
}

/// Reading a pascal string from the front of `s`: the characters and the
/// number of bytes taken, or why it failed.
pub open spec fn read_pstring_spec(s: Seq<u8>) -> Result<(Seq<char>, int), PascalError> {
    if s.len() < 1 {
        Err(PascalError::UnexpectedEof)
    } else {
        let n = s[0] as int;
        if s.len() < 1 + n {
            Err(PascalError::UnexpectedEof)
        } else if !valid_utf8(s.subrange(1, 1 + n)) {
            Err(
                PascalError::InvalidUtf8 {
                    valid_up_to: utf8_valid_up_to(s.subrange(1, 1 + n)),
                    error_len: utf8_error_len(s.subrange(1, 1 + n)),
                },
            )
        } else {
            Ok((decode_utf8(s.subrange(1, 1 + n)), 1 + n))
        }
    }
}

/// Reading a pascal buffer of at most `max_size` bytes from the front of `s`.
pub open spec fn read_pbuffer_spec(s: Seq<u8>, max_size: u16) -> Result<(Seq<u8>, int), PascalError> {
    if s.len() < 2 {
        Err(PascalError::UnexpectedEof)
    } else {
        let size = le_u16_value(s[0], s[1]);
        if size > max_size {
            Err(PascalError::SizeExceedsMaximum { size: size as u16, max_size })
        } else if s.len() < 2 + size {
            Err(PascalError::UnexpectedEof)
        } else {
            Ok((s.subrange(2, 2 + size), 2 + size))
        }
    }
}

/// `r` is what `read_pstring_spec` describes as `spec`.
pub open spec fn pstring_read_matches(
    r: Result<(String, usize), PascalError>,
    spec: Result<(Seq<char>, int), PascalError>,
) -> bool {
    match spec {
        Ok((chars, n)) => r matches Ok((s, m)) && s@ == chars && m == n,
        Err(e) => r matches Err(e2) && e2 == e,
    }
}

/// `r` is what `read_pbuffer_spec` describes as `spec`.
pub open spec fn pbuffer_read_matches(
    r: Result<(Vec<u8>, usize), PascalError>,
    spec: Result<(Seq<u8>, int), PascalError>,
) -> bool {
    match spec {
        Ok((data, n)) => r matches Ok((v, m)) && v@ == data && m == n,
        Err(e) => r matches Err(e2) && e2 == e,
    }
}

/// A copy of `buf[start..end]`.
fn copy_range(buf: &[u8], start: usize, end: usize) -> (r: Vec<u8>)
    requires
        start <= end <= buf@.len(),
    ensures
        r@ == buf@.subrange(start as int, end as int),
{
    let mut out: Vec<u8> = Vec::new();
    let mut i = start;
    while i < end
        invariant
            start <= i <= end <= buf@.len(),
            out@ == buf@.subrange(start as int, i as int),
        decreases end - i,
    {
        out.push(buf[i]);
        i = i + 1;
    }
    out
}

/// Reads a pascal string that starts at `pos` in `buf`; on success returns the
/// string and the number of bytes it took.
pub fn read_pstring_at(buf: &[u8], pos: usize) -> (r: Result<(String, usize), PascalError>)
    requires
        pos <= buf@.len(),
    ensures
        pstring_read_matches(r, read_pstring_spec(buf@.skip(pos as int))),
{
    let ghost s = buf@.skip(pos as int);
    if buf.len() - pos < 1 {
        return Err(PascalError::UnexpectedEof);
    }
    let n = buf[pos] as usize;
    assert(s[0] == buf@[pos as int]);
    if buf.len() - pos - 1 < n {
        return Err(PascalError::UnexpectedEof);
    }
    let data = copy_range(buf, pos + 1, pos + 1 + n);
    assert(data@ == s.subrange(1, 1 + n as int));
    match string_from_utf8(data) {
        Ok(text) => Ok((text, 1 + n)),
        Err((end, len)) => {
            proof {
                lemma_utf8_prefix_end_unique(data@, end);
            }
            Err(PascalError::InvalidUtf8 { valid_up_to: end, error_len: len })
        },
    }
}

/// Reads a pascal buffer of at most `max_size` bytes that starts at `pos` in
/// `buf`; on success returns the bytes and the number of bytes it took.
pub fn read_pbuffer_at(buf: &[u8], pos: usize, max_size: u16) -> (r: Result<(Vec<u8>, usize), PascalError>)
    requires
        pos <= buf@.len(),
    ensures
        pbuffer_read_matches(r, read_pbuffer_spec(buf@.skip(pos as int), max_size)),
{
    let ghost s = buf@.skip(pos as int);
    if buf.len() - pos < 2 {
        return Err(PascalError::UnexpectedEof);
    }
    let size = read_le_u16([buf[pos], buf[pos + 1]]);
    assert(s[0] == buf@[pos as int] && s[1] == buf@[pos + 1]);
    if size > max_size {
        return Err(PascalError::SizeExceedsMaximum { size, max_size });
    }
    let n = size as usize;
    if buf.len() - pos - 2 < n {
        return Err(PascalError::UnexpectedEof);
    }
    let data = copy_range(buf, pos + 2, pos + 2 + n);
    assert(data@ == s.subrange(2, 2 + n as int));
    Ok((data, 2 + n))
}

/// Appends the pascal encoding of `string` to `out`, or fails, leaving `out`
/// unchanged, when its UTF-8 form is longer than 255 bytes.
pub fn write_pstring(out: &mut Vec<u8>, string: &str) -> (r: Result<(), PascalError>)
    ensures
        encode_utf8(string@).len() <= 255 ==> r is Ok && final(out)@ == old(out)@ + pstring_bytes(string@),
        encode_utf8(string@).len() > 255 ==> r == Err::<(), PascalError>(PascalError::StringTooLong)
            && final(out)@ == old(out)@,
{
    let bytes = string.as_bytes();
    if bytes.len() > 255 {
        return Err(PascalError::StringTooLong);
    }
    let ghost before = out@;
    out.push(bytes.len() as u8);
    let mut i: usize = 0;
    while i < bytes.len()
        invariant
            i <= bytes@.len(),
            bytes@ == encode_utf8(string@),
            out@ == before + seq![bytes@.len() as u8] + bytes@.subrange(0, i as int),
        decreases bytes@.len() - i,
    {
        out.push(bytes[i]);
        i = i + 1;
    }
    assert(bytes@.subrange(0, bytes@.len() as int) == bytes@);
    Ok(())
}

/// Appends the pascal encoding of `data` to `out`, or fails, leaving `out`
/// unchanged, when it is longer than 65535 bytes.
pub fn write_pbuffer(out: &mut Vec<u8>, data: &[u8]) -> (r: Result<(), PascalError>)
    ensures
        data@.len() <= 0xffff ==> r is Ok && final(out)@ == old(out)@ + pbuffer_bytes(data@),
        data@.len() > 0xffff ==> r == Err::<(), PascalError>(PascalError::DataTooLong)
            && final(out)@ == old(out)@,
{
    if data.len() > 0xffff {
        return Err(PascalError::DataTooLong);
    }
    let ghost before = out@;
    let len = write_le_u16(data.len() as u16);
    out.push(len[0]);
    out.push(len[1]);
    assert(out@ == before + le_u16_bytes(data@.len() as u16));
    let mut i: usize = 0;
    while i < data.len()
        invariant
            i <= data@.len() <= 0xffff,
            out@ == before + le_u16_bytes(data@.len() as u16) + data@.subrange(0, i as int),
        decreases data@.len() - i,
    {
        out.push(data[i]);
        i = i + 1;
    }
    assert(data@.subrange(0, data@.len() as int) == data@);
    Ok(())
}

/// Reading pascal strings and buffers from the front of a byte source,
/// consuming what was read.
pub trait ReadPascalExt {
    /// Reads one pascal string.
    fn read_pascal_string(&mut self) -> Result<String, PascalError>;

    /// Reads one pascal buffer of at most `max_size` bytes.
    fn read_pascal_buffer(&mut self, max_size: u16) -> Result<Vec<u8>, PascalError>;
}

/// Writing pascal strings and buffers at the end of a byte sink.
pub trait WritePascalExt {
    /// Writes one pascal string.
    fn write_pascal_string(&mut self, string: &str) -> Result<(), PascalError>;

    /// Writes one pascal buffer.
    fn write_pascal_buffer(&mut self, data: &[u8]) -> Result<(), PascalError>;
}

impl ReadPascalExt for BytesMut {
    /// Consumes what the read took, see [`pstring_consumed`]: on success the
    /// string's bytes.
    fn read_pascal_string(&mut self) -> (r: Result<String, PascalError>)
        ensures
            match read_pstring_spec(bytes_contents(*old(self))) {
                Ok((chars, n)) => r matches Ok(s) && s@ == chars && bytes_contents(*final(self))
                    == bytes_contents(*old(self)).skip(n),
                Err(e) => r matches Err(e2) && e2 == e,
            },
            bytes_contents(*final(self)) == bytes_contents(*old(self)).skip(
                pstring_consumed(bytes_contents(*old(self))),
            ),
    {
        proof {
            lemma_pstring_read_consumes_exactly(bytes_contents(*self));
        }
        let bytes = buffer_bytes(self);
        let res = read_pstring_at(bytes, 0);
        assert(bytes@.skip(0) == bytes@);
        let len = bytes.len();
        let consumed = if len < 1 {
            0
        } else if len - 1 < bytes[0] as usize {
            len
        } else {
            1 + bytes[0] as usize
        };
        buffer_advance(self, consumed);
        match res {
            Ok((s, _)) => Ok(s),
            Err(e) => Err(e),
        }
    }

    /// Consumes what the read took, see [`pbuffer_consumed`]: on success the
    /// buffer's bytes.
    fn read_pascal_buffer(&mut self, max_size: u16) -> (r: Result<Vec<u8>, PascalError>)
        ensures
            match read_pbuffer_spec(bytes_contents(*old(self)), max_size) {
                Ok((data, n)) => r matches Ok(v) && v@ == data && bytes_contents(*final(self))
                    == bytes_contents(*old(self)).skip(n),
                Err(e) => r matches Err(e2) && e2 == e,
            },
            bytes_contents(*final(self)) == bytes_contents(*old(self)).skip(
                pbuffer_consumed(bytes_contents(*old(self)), max_size),
            ),
    {
        proof {
            lemma_pbuffer_read_consumes_exactly(bytes_contents(*self), max_size);
        }
        let bytes = buffer_bytes(self);
        let res = read_pbuffer_at(bytes, 0, max_size);
        assert(bytes@.skip(0) == bytes@);
        let len = bytes.len();
        let consumed = if len < 2 {
            len
        } else {
            let size = read_le_u16([bytes[0], bytes[1]]);
            if size > max_size {
                2
            } else if len - 2 < size as usize {
                len
            } else {
                2 + size as usize
            }
        };
        buffer_advance(self, consumed);
        match res {
            Ok((v, _)) => Ok(v),
            Err(e) => Err(e),
        }
    }
}

impl WritePascalExt for Vec<u8> {
    fn write_pascal_string(&mut self, string: &str) -> (r: Result<(), PascalError>)
        ensures
            encode_utf8(string@).len() <= 255 ==> r is Ok
                && final(self)@ == old(self)@ + pstring_bytes(string@),
            encode_utf8(string@).len() > 255 ==> r == Err::<(), PascalError>(PascalError::StringTooLong)
                && final(self)@ == old(self)@,
    {
        write_pstring(self, string)
    }

    fn write_pascal_buffer(&mut self, data: &[u8]) -> (r: Result<(), PascalError>)
        ensures
            data@.len() <= 0xffff ==> r is Ok && final(self)@ == old(self)@ + pbuffer_bytes(data@),
            data@.len() > 0xffff ==> r == Err::<(), PascalError>(PascalError::DataTooLong)
                && final(self)@ == old(self)@,
    {
        write_pbuffer(self, data)
    }
}

/// Law: a written pascal string reads back as the same string, whatever
/// follows it, and the read takes exactly the bytes that were written.
pub proof fn lemma_pstring_roundtrip(chars: Seq<char>, rest: Seq<u8>)
    requires
        encode_utf8(chars).len() <= 255,
    ensures
        read_pstring_spec(pstring_bytes(chars) + rest) == Ok::<(Seq<char>, int), PascalError>(
            (chars, pstring_bytes(chars).len() as int),
        ),
{
    let bytes = encode_utf8(chars);
    let s = pstring_bytes(chars) + rest;
    assert(s.subrange(1, 1 + bytes.len() as int) =~= bytes);
    vstd::utf8::encode_utf8_valid_utf8(chars);
    vstd::utf8::encode_utf8_decode_utf8(chars);
}

/// Law: a written pascal buffer within the reader's limit reads back as the
/// same bytes, whatever follows it.
pub proof fn lemma_pbuffer_roundtrip(data: Seq<u8>, max_size: u16, rest: Seq<u8>)
    requires
        data.len() <= max_size,
    ensures
        read_pbuffer_spec(pbuffer_bytes(data) + rest, max_size) == Ok::<(Seq<u8>, int), PascalError>(
            (data, 2 + data.len() as int),
        ),
{
    let s = pbuffer_bytes(data) + rest;
    let n = data.len() as u16;
    assert(le_u16_value((n % 256) as u8, (n / 256) as u8) == n);
    assert(s.subrange(2, 2 + data.len() as int) =~= data);
}

/// Law: a read of a proper prefix of a pascal string fails: the input
/// ended early.
pub proof fn lemma_pstring_proper_prefix(chars: Seq<char>, k: int)
    requires
        encode_utf8(chars).len() <= 255,
        0 <= k < pstring_bytes(chars).len(),
    ensures
        read_pstring_spec(pstring_bytes(chars).take(k)) == Err::<(Seq<char>, int), PascalError>(
            PascalError::UnexpectedEof,
        ),
{
    let t = pstring_bytes(chars).take(k);
    if k > 0 {
        assert(t[0] == encode_utf8(chars).len() as u8);
    }
}

/// Law: a read of a proper prefix of a pascal buffer fails: the input ended
/// early, or the announced size is over the limit.
pub proof fn lemma_pbuffer_proper_prefix(data: Seq<u8>, max_size: u16, k: int)
    requires
        data.len() <= 0xffff,
        0 <= k < pbuffer_bytes(data).len(),
    ensures
        read_pbuffer_spec(pbuffer_bytes(data).take(k), max_size) is Err,
{
    let t = pbuffer_bytes(data).take(k);
    let n = data.len() as u16;
    if k >= 2 {
        assert(t[0] == (n % 256) as u8 && t[1] == (n / 256) as u8);
        assert(le_u16_value((n % 256) as u8, (n / 256) as u8) == n);
    }
}

/// A pascal buffer announcing more bytes than the limit is refused, whatever
/// follows its length.
pub proof fn lemma_pbuffer_over_limit(data: Seq<u8>, max_size: u16, rest: Seq<u8>)
    requires
        max_size < data.len() <= 0xffff,
    ensures
        read_pbuffer_spec(pbuffer_bytes(data) + rest, max_size) == Err::<(Seq<u8>, int), PascalError>(
            PascalError::SizeExceedsMaximum { size: data.len() as u16, max_size },
        ),
{
    let n = data.len() as u16;
    let s = pbuffer_bytes(data) + rest;
    assert(s[0] == (n % 256) as u8 && s[1] == (n / 256) as u8);
    assert(le_u16_value((n % 256) as u8, (n / 256) as u8) == n);
}

/// Law: a successful string read consumes exactly the bytes it read, the
/// length byte and the string's bytes, and nothing after them.
pub proof fn lemma_pstring_read_consumes_exactly(s: Seq<u8>)
    ensures
        read_pstring_spec(s) matches Ok((chars, n)) ==> pstring_consumed(s) == n && n == 1 + encode_utf8(
            chars,
        ).len(),
{
    if read_pstring_spec(s) is Ok {
        let n = s[0] as int;
        vstd::utf8::decode_utf8_encode_utf8(s.subrange(1, 1 + n));
    }
}

/// Law: reading a written pascal string followed by `rest` gives the string
/// back and leaves exactly `rest`.
pub proof fn lemma_pstring_read_leaves_rest(chars: Seq<char>, rest: Seq<u8>)
    requires
        encode_utf8(chars).len() <= 255,
    ensures
        read_pstring_spec(pstring_bytes(chars) + rest) matches Ok((c, _)) && c == chars,
        (pstring_bytes(chars) + rest).skip(pstring_consumed(pstring_bytes(chars) + rest)) == rest,
{
    lemma_pstring_roundtrip(chars, rest);
    let s = pstring_bytes(chars) + rest;
    assert(s[0] == encode_utf8(chars).len() as u8);
    assert(s.skip(pstring_bytes(chars).len() as int) =~= rest);
}

/// Law: a successful buffer read consumes exactly the bytes it read, the two
/// length bytes and the data, and nothing after them.
pub proof fn lemma_pbuffer_read_consumes_exactly(s: Seq<u8>, max_size: u16)
    ensures
        read_pbuffer_spec(s, max_size) matches Ok((data, n)) ==> pbuffer_consumed(s, max_size) == n && n == 2
            + data.len(),
{
}

/// Law: reading a written pascal buffer within the limit, followed by
/// `rest`, gives the data back and leaves exactly `rest`.
pub proof fn lemma_pbuffer_read_leaves_rest(data: Seq<u8>, max_size: u16, rest: Seq<u8>)
    requires
        data.len() <= max_size,
    ensures
        read_pbuffer_spec(pbuffer_bytes(data) + rest, max_size) matches Ok((d, _)) && d == data,
        (pbuffer_bytes(data) + rest).skip(pbuffer_consumed(pbuffer_bytes(data) + rest, max_size)) == rest,
{
    lemma_pbuffer_roundtrip(data, max_size, rest);
    let s = pbuffer_bytes(data) + rest;
    let n = data.len() as u16;
    assert(s[0] == (n % 256) as u8 && s[1] == (n / 256) as u8);
    assert(le_u16_value((n % 256) as u8, (n / 256) as u8) == n);
    assert(s.skip(2 + data.len() as int) =~= rest);
}

/// Law: a read that succeeds on a prefix succeeds the same way on any
/// extension of it, so more incoming bytes never change a decoded value.
pub proof fn lemma_pstring_prefix_stable(s: Seq<u8>, more: Seq<u8>)
    requires
        read_pstring_spec(s) is Ok,
    ensures
        read_pstring_spec(s + more) == read_pstring_spec(s),
{
    let n = s[0] as int;
    assert((s + more).subrange(1, 1 + n) =~= s.subrange(1, 1 + n));
}

/// Law: the same for pascal buffers.
pub proof fn lemma_pbuffer_prefix_stable(s: Seq<u8>, max_size: u16, more: Seq<u8>)
    requires
        read_pbuffer_spec(s, max_size) is Ok,
    ensures
        read_pbuffer_spec(s + more, max_size) == read_pbuffer_spec(s, max_size),
{
    let size = le_u16_value(s[0], s[1]);
    assert((s + more).subrange(2, 2 + size) =~= s.subrange(2, 2 + size));
}

} // verus!
