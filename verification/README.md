# sfu_core

A sans-I/O media routing core: it parses RTP headers without copying, finds
header extensions (transport-wide congestion control among them), rewrites
the SSRC, sequence number and timestamp of the header for each subscriber of
a publisher, keeps recently routed packets for retransmission and answers
NACKs from them.

Layout of `src/`:

- `rtp.rs`: the RTP header format as spec functions of the raw bytes, the
  parser proved against them, extension lookup, header rewriting and the
  extension map negotiated from SDP.
- `packet_cache.rs`: the 512-slot retransmission ring and the NACK answer.
- `router.rs`: per-subscriber forwarding and the `MediaRouter`, whose state
  sits behind `parking_lot` locks and an `arc_swap` cell.
- `inline_vec.rs`, `bytes_buf.rs`, `sync_cells.rs`: the `smallvec`, `bytes`,
  `parking_lot` and `arc_swap` values the library holds, with the trusted
  wrappers of the methods it calls.
