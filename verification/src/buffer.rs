//! The byte buffer of the `bytes` crate, as seen by the verified code.
use vstd::prelude::*;
use bytes::BytesMut;

verus! {

#[verifier::external_type_specification]
#[verifier::external_body]
pub struct ExBytesMut(bytes::BytesMut);

/// The bytes held by a `BytesMut`, in order.
pub uninterp spec fn bytes_of(b: BytesMut) -> Seq<u8>;

/// `BytesMut::new`: an empty buffer.
#[verifier::external_body]
pub(crate) fn bm_new() -> (r: BytesMut)
    ensures
        bytes_of(r) == Seq::<u8>::empty(),
{
    BytesMut::new()
}

/// `BytesMut::with_capacity`: an empty buffer; the capacity is not modelled.
#[verifier::external_body]
pub(crate) fn bm_with_capacity(capacity: usize) -> (r: BytesMut)
    ensures
        bytes_of(r) == Seq::<u8>::empty(),
{
    BytesMut::with_capacity(capacity)
}

/// `BytesMut::len`: the number of bytes held.
#[verifier::external_body]
pub(crate) fn bm_len(b: &BytesMut) -> (r: usize)
    ensures
        r == bytes_of(*b).len(),
{
    b.len()
}

/// Reading one byte through `BytesMut`'s `Deref<Target = [u8]>`.
#[verifier::external_body]
pub(crate) fn bm_get(b: &BytesMut, i: usize) -> (r: u8)
    requires
        i < bytes_of(*b).len(),
    ensures
        r == bytes_of(*b)[i as int],
{
    b[i]
}

/// Writing one byte through `BytesMut`'s `DerefMut<Target = [u8]>`.
#[verifier::external_body]
pub(crate) fn bm_set(b: &mut BytesMut, i: usize, v: u8)
    requires
        i < bytes_of(*old(b)).len(),
    ensures
        bytes_of(*final(b)) == bytes_of(*old(b)).update(i as int, v),
{
    b[i] = v;
}

/// `BytesMut::resize`: truncates to `new_len`, or appends copies of `value` up to it.
#[verifier::external_body]
pub(crate) fn bm_resize(b: &mut BytesMut, new_len: usize, value: u8)
    ensures
        bytes_of(*final(b)) == (if new_len <= bytes_of(*old(b)).len() {
            bytes_of(*old(b)).take(new_len as int)
        } else {
            bytes_of(*old(b)) + Seq::new((new_len - bytes_of(*old(b)).len()) as nat, |_i: int| value)
        }),
{
    b.resize(new_len, value)
}

/// `BytesMut::extend_from_slice`: appends the slice.
#[verifier::external_body]
pub(crate) fn bm_extend(b: &mut BytesMut, data: &[u8])
    ensures
        bytes_of(*final(b)) == bytes_of(*old(b)) + data@,
{
    b.extend_from_slice(data)
}

/// The bytes of a `BytesMut` as a slice, through its `Deref<Target = [u8]>`.
#[verifier::external_body]
pub(crate) fn bm_as_slice(b: &BytesMut) -> (r: &[u8])
    ensures
        r@ == bytes_of(*b),
{
    &b[..]
}

/// The bytes of a `BytesMut` as a mutable slice, through its `DerefMut<Target = [u8]>`.
#[verifier::external_body]
pub(crate) fn bm_as_mut_slice(b: &mut BytesMut) -> (r: &mut [u8])
    ensures
        r@ == bytes_of(*old(b)),
        bytes_of(*final(b)) == final(r)@,
{
    &mut b[..]
}

/// `BytesMut::clone`: a new buffer holding the same bytes.
pub assume_specification[ <bytes::BytesMut as Clone>::clone ](b: &BytesMut) -> (r: BytesMut)
    ensures
        bytes_of(r) == bytes_of(*b),
;

} // verus!
