//! The `smallvec::SmallVec` lists that the parser and the router fill.
//!
//! Each list is held in a private field of a struct of this crate, with a
//! name for what it holds and one trusted wrapper per `SmallVec` method used.

use smallvec::SmallVec;
use vstd::prelude::*;
use crate::rtp::HeaderExtension;
use crate::router::OutgoingPacket;

verus! {

/// The CSRC identifiers of a packet, inline up to four.
#[verifier::external_body]
pub struct CsrcList {
    items: SmallVec<[u32; 4]>,
}

/// The header-extension records of a packet, inline up to four.
#[verifier::external_body]
pub struct ExtensionList {
    items: SmallVec<[HeaderExtension; 4]>,
}

/// A rewritten RTP header, inline up to 64 bytes.
#[verifier::external_body]
pub struct HeaderBuf {
    items: SmallVec<[u8; 64]>,
}

/// The packets produced by one routing call, inline up to sixteen.
#[verifier::external_body]
pub struct OutgoingList {
    items: SmallVec<[OutgoingPacket; 16]>,
}

/// The identifiers a [`CsrcList`] holds, in order.
pub uninterp spec fn csrc_items(v: CsrcList) -> Seq<u32>;

/// The records an [`ExtensionList`] holds, in order.
pub uninterp spec fn extension_items(v: ExtensionList) -> Seq<HeaderExtension>;

/// The bytes a [`HeaderBuf`] holds, in order.
pub uninterp spec fn header_bytes(v: HeaderBuf) -> Seq<u8>;

/// The packets an [`OutgoingList`] holds, in order.
pub uninterp spec fn outgoing_items(v: OutgoingList) -> Seq<OutgoingPacket>;

impl CsrcList {
    /// `SmallVec::new`: an empty list.
    #[verifier::external_body]
    pub(crate) fn new() -> (v: Self)
        ensures
            csrc_items(v) == Seq::<u32>::empty(),
    {
        CsrcList { items: SmallVec::new() }
    }

    /// `SmallVec::push`: appends `x`. It panics only when the grown capacity
    /// overflows `isize` bytes; `requires` keeps the list far below that.
    #[verifier::external_body]
    pub(crate) fn push(&mut self, x: u32)
        requires
            csrc_items(*old(self)).len() < 0x10_0000,
        ensures
            csrc_items(*final(self)) == csrc_items(*old(self)).push(x),
    {
        self.items.push(x)
    }

    /// `SmallVec::as_slice`: the identifiers held, in order.
    #[verifier::external_body]
    pub fn as_slice(&self) -> (s: &[u32])
        ensures
            s@ == csrc_items(*self),
    {
        self.items.as_slice()
    }
}

impl ExtensionList {
    /// `SmallVec::new`: an empty list.
    #[verifier::external_body]
    pub(crate) fn new() -> (v: Self)
        ensures
            extension_items(v) == Seq::<HeaderExtension>::empty(),
    {
        ExtensionList { items: SmallVec::new() }
    }

    /// `SmallVec::push`: appends `x`. It panics only when the grown capacity
    /// overflows `isize` bytes; `requires` keeps the list far below that.
    #[verifier::external_body]
    pub(crate) fn push(&mut self, x: HeaderExtension)
        requires
            extension_items(*old(self)).len() < 0x10_0000,
        ensures
            extension_items(*final(self)) == extension_items(*old(self)).push(x),
    {
        self.items.push(x)
    }

    /// `SmallVec::as_slice`: the records held, in order.
    #[verifier::external_body]
    pub fn as_slice(&self) -> (s: &[HeaderExtension])
        ensures
            s@ == extension_items(*self),
    {
        self.items.as_slice()
    }
}

impl HeaderBuf {
    /// `SmallVec::new`: an empty buffer.
    #[verifier::external_body]
    pub(crate) fn new() -> (v: Self)
        ensures
            header_bytes(v) == Seq::<u8>::empty(),
    {
        HeaderBuf { items: SmallVec::new() }
    }

    /// `SmallVec::extend_from_slice`: appends a copy of `s`. It grows the
    /// capacity to the next power of two of the new length and panics only
    /// when that exceeds `isize::MAX` bytes, that is when the new length is
    /// above a quarter of the address space plus one, which `requires`
    /// rules out.
    #[verifier::external_body]
    pub(crate) fn extend_from_slice(&mut self, s: &[u8])
        requires
            header_bytes(*old(self)).len() + s@.len() <= usize::MAX / 4 + 1,
        ensures
            header_bytes(*final(self)) == header_bytes(*old(self)) + s@,
    {
        self.items.extend_from_slice(s)
    }

    /// `IndexMut::index_mut` on the `SmallVec`, assigned through: byte `i` becomes `b`.
    #[verifier::external_body]
    pub(crate) fn set(&mut self, i: usize, b: u8)
        requires
            i < header_bytes(*old(self)).len(),
        ensures
            header_bytes(*final(self)) == header_bytes(*old(self)).update(i as int, b),
    {
        self.items[i] = b;
    }

    /// `SmallVec::as_slice`: the bytes held, in order.
    #[verifier::external_body]
    pub fn as_slice(&self) -> (s: &[u8])
        ensures
            s@ == header_bytes(*self),
    {
        self.items.as_slice()
    }
}

impl OutgoingList {
    /// `SmallVec::new`: an empty list.
    #[verifier::external_body]
    pub fn new() -> (v: Self)
        ensures
            outgoing_items(v) == Seq::<OutgoingPacket>::empty(),
    {
        OutgoingList { items: SmallVec::new() }
    }

    /// `SmallVec::clear`: removes every packet.
    #[verifier::external_body]
    pub(crate) fn clear(&mut self)
        ensures
            outgoing_items(*final(self)) == Seq::<OutgoingPacket>::empty(),
    {
        self.items.clear()
    }

    /// `SmallVec::push`: appends `x`. It panics only when the grown capacity
    /// overflows `isize` bytes, which needs a list of about half the address
    /// space; `requires` rules out only a length of `usize::MAX`.
    #[verifier::external_body]
    pub(crate) fn push(&mut self, x: OutgoingPacket)
        requires
            outgoing_items(*old(self)).len() < usize::MAX,
        ensures
            outgoing_items(*final(self)) == outgoing_items(*old(self)).push(x),
    {
        self.items.push(x)
    }

    /// `SmallVec::as_slice`: the packets held, in order.
    #[verifier::external_body]
    pub fn as_slice(&self) -> (s: &[OutgoingPacket])
        ensures
            s@ == outgoing_items(*self),
    {
        self.items.as_slice()
    }
}

} // verus!
