//! Immutable byte strings that are cheap to clone and to slice: [`ByteView`].
use byteview::ByteView;

use vstd::prelude::*;

verus! {

/// [`ByteView`], a reference-counted byte string. Opaque: what it holds is
/// [`blob_bytes`].
#[verifier::external_type_specification]
#[verifier::external_body]
pub struct ExByteView(byteview::ByteView);

/// The bytes a [`ByteView`] holds.
pub uninterp spec fn blob_bytes(blob: ByteView) -> Seq<u8>;

/// The longest byte string a [`ByteView`] holds: its length is a `u32`.
pub const MAX_BLOB: usize = 0xffff_ffff;

/// `ByteView::new`: a byte string holding a copy of `bytes`. It panics on more than
/// [`MAX_BLOB`] bytes, so no more are let in.
#[verifier::external_body]
pub(crate) fn blob(bytes: &[u8]) -> (made: ByteView)
    requires
        bytes@.len() <= MAX_BLOB,
    ensures
        blob_bytes(made) == bytes@,
{
    ByteView::new(bytes)
}

/// `ByteView::deref`: the bytes, borrowed. There are never more than [`MAX_BLOB`].
#[verifier::external_body]
pub(crate) fn as_bytes(blob: &ByteView) -> (bytes: &[u8])
    ensures
        bytes@ == blob_bytes(*blob),
        bytes@.len() <= MAX_BLOB,
{
    blob
}

/// `ByteView::slice`: the bytes from `from` on, sharing the same storage. It panics
/// where `from` is past the end.
#[verifier::external_body]
pub(crate) fn blob_from(blob: &ByteView, from: usize) -> (rest: ByteView)
    requires
        from <= blob_bytes(*blob).len(),
    ensures
        blob_bytes(rest) == blob_bytes(*blob).skip(from as int),
{
    blob.slice(from..)
}

/// `ByteView::slice`: the bytes from `from` up to `to`, sharing the same storage. It
/// panics where they are not a range of the bytes.
#[verifier::external_body]
pub(crate) fn blob_range(blob: &ByteView, from: usize, to: usize) -> (part: ByteView)
    requires
        from <= to <= blob_bytes(*blob).len(),
    ensures
        blob_bytes(part) == blob_bytes(*blob).subrange(from as int, to as int),
{
    blob.slice(from..to)
}

/// `ByteView::to_detached`: the same bytes in storage of their own.
#[verifier::external_body]
pub(crate) fn blob_detached(blob: &ByteView) -> (copy: ByteView)
    ensures
        blob_bytes(copy) == blob_bytes(*blob),
{
    blob.to_detached()
}

/// `ByteView::clone`: another handle on the same bytes.
#[verifier::external_body]
pub(crate) fn blob_clone(blob: &ByteView) -> (copy: ByteView)
    ensures
        blob_bytes(copy) == blob_bytes(*blob),
{
    blob.clone()
}

} // verus!
