//! The shared packet buffers (`bytes::Bytes` behind an `Arc`) that the router
//! parses, caches and forwards without copying.

use bytes::Bytes;
use std::sync::Arc;
use vstd::prelude::*;

verus! {

/// `bytes::Bytes`, an immutable shared byte buffer, opaque to proofs.
#[verifier::external_type_specification]
#[verifier::external_body]
pub struct ExBytes(Bytes);

/// The bytes a `Bytes` buffer holds.
pub uninterp spec fn bytes_data(b: Bytes) -> Seq<u8>;

/// `<Bytes as AsRef<[u8]>>::as_ref`: the buffer's bytes, borrowed.
#[verifier::external_body]
pub(crate) fn bytes_slice(b: &Bytes) -> (s: &[u8])
    ensures
        s@ == bytes_data(*b),
{
    b.as_ref()
}

/// `<Arc<Bytes> as Clone>::clone`: another pointer to the same buffer.
#[verifier::external_body]
pub(crate) fn share_buf(b: &Arc<Bytes>) -> (r: Arc<Bytes>)
    ensures
        r == *b,
{
    b.clone()
}

} // verus!
