//! The growable byte buffer of the `bytes` crate, as the codec sees it:
//! a sequence of pending bytes that can be read, consumed from the front
//! and extended at the back.

use bytes::{Buf, BytesMut};
use vstd::prelude::*;

verus! {

#[verifier::external_type_specification]
#[verifier::external_body]
pub struct ExBytesMut(BytesMut);

/// The bytes a `BytesMut` currently holds, from its read position to its end.
pub uninterp spec fn bytes_contents(b: BytesMut) -> Seq<u8>;

/// Calls `<BytesMut as AsRef<[u8]>>::as_ref`. Claimed: the slice is exactly the
/// buffer's contents.
#[verifier::external_body]
pub(crate) fn buffer_bytes(b: &BytesMut) -> (r: &[u8])
    ensures
        r@ == bytes_contents(*b),
{
    b.as_ref()
}

/// Calls `<BytesMut as Buf>::advance`, which panics past the end (hence the
/// `requires`). Claimed: the first `n` bytes are gone, the rest is unchanged.
#[verifier::external_body]
pub(crate) fn buffer_advance(b: &mut BytesMut, n: usize)
    requires
        n <= bytes_contents(*old(b)).len(),
    ensures
        bytes_contents(*final(b)) == bytes_contents(*old(b)).skip(n as int),
{
    b.advance(n)
}

/// Calls `BytesMut::extend_from_slice`, which panics when the new length
/// overflows (hence the `requires`). Claimed: `s` is appended at the end.
#[verifier::external_body]
pub(crate) fn buffer_extend(b: &mut BytesMut, s: &[u8])
    requires
        bytes_contents(*old(b)).len() + s@.len() <= isize::MAX,
    ensures
        bytes_contents(*final(b)) == bytes_contents(*old(b)) + s@,
{
    b.extend_from_slice(s)
}

} // verus!
