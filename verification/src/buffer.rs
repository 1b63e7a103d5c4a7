//! The byte buffers of the `bytes` crate, as the codec sees them.
//!
//! Nothing in this file is proved. Each item states what the `bytes` crate
//! documents of the function it names, over the sequence of bytes that a
//! buffer holds. Capacity is not modelled.

use bytes::{Bytes, BytesMut};
use vstd::prelude::*;

verus! {

/// `bytes::BytesMut`, a growable byte buffer. Opaque: what it holds is
/// `buffer_bytes`.
#[verifier::external_type_specification]
#[verifier::external_body]
pub struct ExBytesMut(BytesMut);

/// `bytes::Bytes`, an immutable byte buffer. Opaque: what it holds is
/// `frozen_bytes`.
#[verifier::external_type_specification]
#[verifier::external_body]
pub struct ExBytes(Bytes);

/// The bytes that a `BytesMut` holds, in order.
pub uninterp spec fn buffer_bytes(buf: BytesMut) -> Seq<u8>;

/// The bytes that a `Bytes` holds, in order.
pub uninterp spec fn frozen_bytes(buf: Bytes) -> Seq<u8>;

/// `BytesMut::new`: the new buffer has length zero.
pub assume_specification[ BytesMut::new ]() -> (buf: BytesMut)
    ensures
        buffer_bytes(buf) == Seq::<u8>::empty(),
;

/// `Bytes::new`: the new value is empty.
pub assume_specification[ Bytes::new ]() -> (buf: Bytes)
    ensures
        frozen_bytes(buf) == Seq::<u8>::empty(),
;

/// `BytesMut::len`: the number of bytes held.
pub assume_specification[ BytesMut::len ](buf: &BytesMut) -> (n: usize)
    ensures
        n == buffer_bytes(*buf).len(),
;

/// `BytesMut::clear`: afterwards the buffer holds nothing.
pub assume_specification[ BytesMut::clear ](buf: &mut BytesMut)
    ensures
        buffer_bytes(*final(buf)) == Seq::<u8>::empty(),
;

/// `BytesMut::reserve`: the bytes held stay as they are. The call panics
/// when the new capacity overflows `usize`, which `requires` leaves out.
pub assume_specification[ BytesMut::reserve ](buf: &mut BytesMut, additional: usize)
    requires
        buffer_bytes(*old(buf)).len() + additional <= usize::MAX,
    ensures
        buffer_bytes(*final(buf)) == buffer_bytes(*old(buf)),
;

/// `BytesMut::extend_from_slice`: the slice is appended. It reserves first,
/// so it shares the panic of `reserve`.
pub assume_specification[ BytesMut::extend_from_slice ](buf: &mut BytesMut, extend: &[u8])
    requires
        buffer_bytes(*old(buf)).len() + extend@.len() <= usize::MAX,
    ensures
        buffer_bytes(*final(buf)) == buffer_bytes(*old(buf)) + extend@,
;

/// `BytesMut::resize`: a longer buffer is cut to `new_len` bytes, a shorter
/// one is extended to `new_len` bytes with copies of `value`.
pub assume_specification[ BytesMut::resize ](buf: &mut BytesMut, new_len: usize, value: u8)
    ensures
        buffer_bytes(*final(buf)).len() == new_len,
        forall|i: int|
            0 <= i < new_len ==> #[trigger] buffer_bytes(*final(buf))[i] == (if i < buffer_bytes(
                *old(buf),
            ).len() {
                buffer_bytes(*old(buf))[i]
            } else {
                value
            }),
;

/// `BytesMut::split_off`: the buffer keeps the bytes before `at`, the result
/// holds the bytes from `at` on. The call panics when `at` exceeds the
/// capacity; `requires` asks for `at` within the length, which is never more.
pub assume_specification[ BytesMut::split_off ](buf: &mut BytesMut, at: usize) -> (tail: BytesMut)
    requires
        at <= buffer_bytes(*old(buf)).len(),
    ensures
        buffer_bytes(*final(buf)) == buffer_bytes(*old(buf)).subrange(0, at as int),
        buffer_bytes(tail) == buffer_bytes(*old(buf)).subrange(
            at as int,
            buffer_bytes(*old(buf)).len() as int,
        ),
;

/// `BytesMut::split_to`: the result holds the bytes before `at`, the buffer
/// keeps the bytes from `at` on. The call panics when `at` exceeds the length.
pub assume_specification[ BytesMut::split_to ](buf: &mut BytesMut, at: usize) -> (head: BytesMut)
    requires
        at <= buffer_bytes(*old(buf)).len(),
    ensures
        buffer_bytes(head) == buffer_bytes(*old(buf)).subrange(0, at as int),
        buffer_bytes(*final(buf)) == buffer_bytes(*old(buf)).subrange(
            at as int,
            buffer_bytes(*old(buf)).len() as int,
        ),
;

/// `BytesMut::freeze`: the frozen value holds the same bytes.
pub assume_specification[ BytesMut::freeze ](buf: BytesMut) -> (frozen: Bytes)
    ensures
        frozen_bytes(frozen) == buffer_bytes(buf),
;

/// `Deref` of `BytesMut`: the slice of the bytes held.
#[verifier::external_body]
pub(crate) fn held(buf: &BytesMut) -> (s: &[u8])
    ensures
        s@ == buffer_bytes(*buf),
{
    &buf[..]
}

/// `DerefMut` of `BytesMut`: the slice of the bytes held, for writing in
/// place. What the slice holds when the borrow ends is what the buffer holds.
#[verifier::external_body]
pub(crate) fn held_mut(buf: &mut BytesMut) -> (s: &mut [u8])
    ensures
        s@ == buffer_bytes(*old(buf)),
        buffer_bytes(*final(buf)) == final(s)@,
{
    &mut buf[..]
}

} // verus!
