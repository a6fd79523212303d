use vstd::prelude::*;

verus! {

#[verifier::external_type_specification]
#[verifier::external_body]
pub struct ExBytesMut(bytes::BytesMut);

#[verifier::external_type_specification]
#[verifier::external_body]
pub struct ExBytes(bytes::Bytes);

/// The bytes that a receive buffer holds.
pub uninterp spec fn pending_bytes(b: bytes::BytesMut) -> Seq<u8>;

/// The bytes of a frozen region.
pub uninterp spec fn frozen_bytes(b: bytes::Bytes) -> Seq<u8>;

/// The number of bytes a receive buffer can hold without growing.
pub uninterp spec fn capacity_of(b: bytes::BytesMut) -> nat;

/// The spare capacity below which a receive buffer grows before the next read.
pub const LOW_WATER: usize = 512;

/// The size to which a receive buffer's spare capacity grows at once.
pub const POOL_SIZE: usize = 524288;

/// Relies on bytes::BytesMut::with_capacity: an empty buffer.
#[verifier::external_body]
pub fn buffer_with_capacity(cap: usize) -> (r: bytes::BytesMut)
    ensures
        pending_bytes(r).len() == 0,
{
    bytes::BytesMut::with_capacity(cap)
}

/// Relies on bytes::BytesMut::len: the number of bytes held.
#[verifier::external_body]
pub fn buffer_len(b: &bytes::BytesMut) -> (r: usize)
    ensures
        r == pending_bytes(*b).len(),
{
    b.len()
}

/// Relies on bytes::BytesMut::capacity: it is never below the length.
#[verifier::external_body]
pub fn buffer_capacity(b: &bytes::BytesMut) -> (r: usize)
    ensures
        r == capacity_of(*b),
        r >= pending_bytes(*b).len(),
{
    b.capacity()
}

/// Relies on bytes::BytesMut::reserve: the contents stay, and room for at least `additional`
/// more bytes is made; it panics only where the new capacity overflows, which `requires`
/// keeps out.
#[verifier::external_body]
pub fn buffer_reserve(b: &mut bytes::BytesMut, additional: usize)
    requires
        pending_bytes(*old(b)).len() + additional <= isize::MAX,
    ensures
        pending_bytes(*final(b)) == pending_bytes(*old(b)),
        capacity_of(*final(b)) >= pending_bytes(*old(b)).len() + additional,
{
    b.reserve(additional)
}

/// Relies on bytes::BytesMut::extend_from_slice: `s` is appended.
#[verifier::external_body]
pub fn buffer_extend(b: &mut bytes::BytesMut, s: &[u8])
    requires
        pending_bytes(*old(b)).len() + s@.len() <= isize::MAX,
    ensures
        pending_bytes(*final(b)) == pending_bytes(*old(b)) + s@,
{
    b.extend_from_slice(s)
}

/// Relies on BytesMut's Deref to a slice: the bytes held.
#[verifier::external_body]
pub fn buffer_slice(b: &bytes::BytesMut) -> (r: &[u8])
    ensures
        r@ == pending_bytes(*b),
{
    &b[..]
}

/// Relies on bytes::BytesMut::split_to: the first `at` bytes leave `b` for the result.
#[verifier::external_body]
pub fn buffer_split_to(b: &mut bytes::BytesMut, at: usize) -> (r: bytes::BytesMut)
    requires
        at <= pending_bytes(*old(b)).len(),
    ensures
        pending_bytes(r) == pending_bytes(*old(b)).take(at as int),
        pending_bytes(*final(b)) == pending_bytes(*old(b)).skip(at as int),
{
    b.split_to(at)
}

/// Relies on bytes::BytesMut::freeze: the same bytes, no longer mutable.
#[verifier::external_body]
pub fn freeze(b: bytes::BytesMut) -> (r: bytes::Bytes)
    ensures
        frozen_bytes(r) == pending_bytes(b),
{
    b.freeze()
}

/// Relies on Bytes' Deref to a slice: the bytes held.
#[verifier::external_body]
pub fn frozen_slice(b: &bytes::Bytes) -> (r: &[u8])
    ensures
        r@ == frozen_bytes(*b),
{
    &b[..]
}

/// Detaches the first `at` bytes of `b` as an independent, immutable region.
pub fn split_frozen(b: &mut bytes::BytesMut, at: usize) -> (r: bytes::Bytes)
    requires
        at <= pending_bytes(*old(b)).len(),
    ensures
        frozen_bytes(r) == pending_bytes(*old(b)).take(at as int),
        pending_bytes(*final(b)) == pending_bytes(*old(b)).skip(at as int),
{
    freeze(buffer_split_to(b, at))
}

/// Makes room for the next read: where less than `LOW_WATER` bytes of spare capacity are
/// left, the spare capacity grows to `POOL_SIZE` at once; otherwise the buffer is left as
/// it is. The contents stay.
pub fn prepare_read(b: &mut bytes::BytesMut)
    requires
        pending_bytes(*old(b)).len() + POOL_SIZE <= isize::MAX,
    ensures
        pending_bytes(*final(b)) == pending_bytes(*old(b)),
        capacity_of(*final(b)) >= pending_bytes(*final(b)).len() + LOW_WATER,
        capacity_of(*old(b)) >= pending_bytes(*old(b)).len() + LOW_WATER ==> *final(b) == *old(b),
        capacity_of(*old(b)) < pending_bytes(*old(b)).len() + LOW_WATER ==> capacity_of(*final(b))
            - pending_bytes(*final(b)).len() >= POOL_SIZE - (capacity_of(*old(b)) - pending_bytes(
            *old(b),
        ).len()),
{
    let remaining = buffer_capacity(b) - buffer_len(b);
    if remaining < LOW_WATER {
        buffer_reserve(b, POOL_SIZE - remaining);
    }
}

} // verus!
