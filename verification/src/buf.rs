//! What this library relies on of the `bytes` crate: the byte strings
//! [`bytes::Bytes`] and the receive buffer [`bytes::BytesMut`].

use bytes::{Buf, Bytes, BytesMut};
use vstd::prelude::*;

verus! {

/// [`bytes::Bytes`], an immutable byte string.
#[verifier::external_type_specification]
#[verifier::external_body]
pub struct ExBytes(bytes::Bytes);

/// [`bytes::BytesMut`], a growable byte buffer.
#[verifier::external_type_specification]
#[verifier::external_body]
pub struct ExBytesMut(bytes::BytesMut);

/// The bytes that a [`bytes::Bytes`] holds.
pub uninterp spec fn content(b: Bytes) -> Seq<u8>;

/// The bytes that a [`bytes::BytesMut`] holds.
pub uninterp spec fn buffered(b: BytesMut) -> Seq<u8>;

/// The bytes of each of a list of byte strings.
pub open spec fn contents(list: Seq<Bytes>) -> Seq<Seq<u8>> {
    list.map_values(|b: Bytes| content(b))
}

/// `Bytes::new` makes an empty byte string.
pub assume_specification[ bytes::Bytes::new ]() -> (b: Bytes)
    ensures
        content(b) == Seq::<u8>::empty(),
;

/// `Bytes::copy_from_slice` holds a copy of the slice.
pub assume_specification[ bytes::Bytes::copy_from_slice ](data: &[u8]) -> (b: Bytes)
    ensures
        content(b) == data@,
;

/// A clone of a `Bytes` holds the same bytes.
pub assume_specification[ <bytes::Bytes as Clone>::clone ](b: &Bytes) -> (copy: Bytes)
    ensures
        content(copy) == content(*b),
;

/// A `Bytes` dereferences to its bytes.
pub assume_specification[ <bytes::Bytes as core::ops::Deref>::deref ](b: &Bytes) -> (data: &[u8])
    ensures
        data@ == content(*b),
;

/// A `BytesMut` dereferences to its bytes.
pub assume_specification[ <bytes::BytesMut as core::ops::Deref>::deref ](b: &BytesMut) -> (data:
    &[u8])
    ensures
        data@ == buffered(*b),
;

/// `BytesMut::advance` drops the first `cnt` bytes. It panics where there are
/// fewer.
#[verifier::external_body]
pub(crate) fn advance(b: &mut BytesMut, cnt: usize)
    requires
        cnt <= buffered(*old(b)).len(),
    ensures
        buffered(*final(b)) == buffered(*old(b)).skip(cnt as int),
{
    b.advance(cnt)
}

/// `Bytes::from` takes the bytes of a vector over.
#[verifier::external_body]
pub(crate) fn from_vec(data: Vec<u8>) -> (b: Bytes)
    ensures
        content(b) == data@,
{
    Bytes::from(data)
}

/// A list with one more byte string holds what it held and that one.
pub broadcast proof fn lemma_contents_push(list: Seq<Bytes>, b: Bytes)
    ensures
        #[trigger] contents(list.push(b)) == contents(list).push(content(b)),
{
    assert(contents(list.push(b)) =~= contents(list).push(content(b)));
}

} // verus!
