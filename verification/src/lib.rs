//! Sans-I/O media routing core: RTP header parsing, header-extension lookup,
//! per-subscriber header rewriting, a retransmission cache and a publisher /
//! subscriber router.

pub mod bytes_buf;
pub mod inline_vec;
pub mod packet_cache;
pub mod router;
pub mod rtp;
mod sync_cells;

pub use inline_vec::OutgoingList;
pub use router::{MediaRouter, OutgoingPacket};
