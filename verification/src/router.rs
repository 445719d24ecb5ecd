//! Publisher-to-subscribers routing: per-subscriber header rewriting, the
//! retransmission cache and congestion-control feedback.

use bytes::Bytes;
use crossbeam_channel::Sender;
use parking_lot::{Mutex, RwLock};
use std::collections::HashMap;
use std::ops::Range;
use std::sync::Arc;
use vstd::prelude::*;
use vstd::std_specs::convert::FromSpecImpl;
use crate::bytes_buf::{bytes_data, share_buf};
use crate::inline_vec::{header_bytes, outgoing_items, HeaderBuf, OutgoingList};
use crate::packet_cache::{nack_response, slot_of, PacketCache};
use crate::rtp::{
    be16, be32, extension_list, find_extension, header_len, law_rewrite_with_own_fields_is_identity,
    lemma_found_extension_in_header,
    parse_error, put_be16, put_be32, rewritten_header,
    Error as RtpError, ExtensionKind, ExtensionMap, ExtensionType, RtpPacket, TransportCc,
};
use crate::sync_cells::{
    cache_lock_new, lock_cache, read_table, table_lock_new, write_table, SubscriberCell,
};

verus! {

/// Errors reported by the router.
#[derive(Debug, Clone, Copy, PartialEq, Eq, Structural)]
pub enum Error {
    Rtp(RtpError),
    UnknownPublisher,
}

impl From<RtpError> for Error {
    fn from(e: RtpError) -> (r: Self) {
        Error::Rtp(e)
    }
}

impl FromSpecImpl<RtpError> for Error {
    open spec fn obeys_from_spec() -> bool {
        true
    }

    open spec fn from_spec(e: RtpError) -> Self {
        Error::Rtp(e)
    }
}

/// One packet to send to one subscriber: a rewritten header followed by the
/// publisher's payload, shared rather than copied.
pub struct OutgoingPacket {
    pub header: HeaderBuf,
    pub payload: Arc<Bytes>,
    pub payload_range: Range<usize>,
    pub dest_ssrc: u32,
    pub transport_cc: Option<u16>,
}

/// Receiver of congestion-control feedback.
pub trait FeedbackLoop: Send + Sync {
    fn on_twcc(&self, publisher_ssrc: u32, seq: u16);

    fn on_pli(&self, publisher_ssrc: u32);
}

/// A registered feedback receiver, called through dynamic dispatch.
#[verifier::external_body]
pub struct FeedbackHandle {
    cb: Arc<dyn FeedbackLoop>,
}

impl FeedbackHandle {
    /// Holds `cb`, as an `Arc<dyn FeedbackLoop>`, for later calls.
    #[verifier::external_body]
    fn new<F: FeedbackLoop + 'static>(cb: Arc<F>) -> Self {
        FeedbackHandle { cb }
    }

    /// `FeedbackLoop::on_twcc` on the registered receiver.
    #[verifier::external_body]
    fn on_twcc(&self, publisher_ssrc: u32, seq: u16) {
        self.cb.on_twcc(publisher_ssrc, seq)
    }
}

/// `crossbeam_channel::Sender`, the sending half of a channel, opaque to proofs.
#[verifier::external_type_specification]
#[verifier::external_body]
#[verifier::reject_recursive_types(T)]
pub struct ExSender<T>(Sender<T>);

/// `Sender::try_send`: offers `(publisher_ssrc, seq)` to the channel without
/// blocking; whether it was taken is ignored.
#[verifier::external_body]
fn offer_twcc(s: &Sender<(u32, u16)>, publisher_ssrc: u32, seq: u16) {
    let _ = s.try_send((publisher_ssrc, seq));
}

/// A subscriber of a publisher's stream and its rewriting state.
#[derive(Clone, Copy)]
pub struct Subscriber {
    pub rewrite_ssrc: u32,
    pub last_in_seq: Option<u16>,
    pub last_out_seq: Option<u16>,
    pub last_in_ts: Option<u32>,
    pub last_out_ts: Option<u32>,
}

/// A subscriber that has not been sent anything yet.
pub open spec fn fresh_subscriber(rewrite_ssrc: u32) -> Subscriber {
    Subscriber {
        rewrite_ssrc,
        last_in_seq: None,
        last_out_seq: None,
        last_in_ts: None,
        last_out_ts: None,
    }
}

/// No subscriber in `subs` has been sent anything yet.
pub open spec fn all_fresh(subs: Seq<Subscriber>) -> bool {
    forall|i: int| 0 <= i < subs.len() ==> #[trigger] subs[i] == fresh_subscriber(subs[i].rewrite_ssrc)
}

/// The sequence number that `sub` is sent for an incoming `in_seq`: its last
/// outgoing number moved by the distance from its last incoming one, or
/// `in_seq` itself while it has none.
pub open spec fn out_seq(sub: Subscriber, in_seq: u16) -> int {
    let delta = match sub.last_in_seq {
        Some(last) => (in_seq - last) % 65536,
        None => 0,
    };
    match sub.last_out_seq {
        Some(o) => (o + delta) % 65536,
        None => in_seq as int,
    }
}

/// The timestamp that `sub` is sent for an incoming `in_ts`, as for sequence numbers.
pub open spec fn out_ts(sub: Subscriber, in_ts: u32) -> int {
    let delta = match sub.last_in_ts {
        Some(last) => (in_ts - last) % 0x1_0000_0000,
        None => 0,
    };
    match sub.last_out_ts {
        Some(o) => (o + delta) % 0x1_0000_0000,
        None => in_ts as int,
    }
}

/// The transport-wide CC sequence number of `raw`, read through `map`.
pub open spec fn transport_cc_of(raw: Seq<u8>, map: ExtensionMap) -> Option<u16> {
    let id = map.id_of(ExtensionKind::TransportCc);
    if id == 0 {
        None
    } else {
        match find_extension(extension_list(raw), id, 0) {
            Some(e) => TransportCc::spec_parse(raw.subrange(e.offset as int, e.offset + e.len)),
            None => None,
        }
    }
}

/// `o` is what the packet `raw`, held in `buf`, becomes for `sub`.
pub open spec fn forwarded(
    o: OutgoingPacket,
    raw: Seq<u8>,
    buf: Arc<Bytes>,
    sub: Subscriber,
    map: ExtensionMap,
) -> bool {
    &&& header_bytes(o.header) == rewritten_header(
        raw.subrange(0, header_len(raw)),
        out_seq(sub, be16(raw, 2) as u16),
        out_ts(sub, be32(raw, 4) as u32),
        sub.rewrite_ssrc as int,
    )
    &&& o.payload == buf
    &&& o.payload_range.start == header_len(raw)
    &&& o.payload_range.end == raw.len()
    &&& o.dest_ssrc == sub.rewrite_ssrc
    &&& o.transport_cc == transport_cc_of(raw, map)
}

fn next_out_seq(sub: &Subscriber, in_seq: u16) -> (r: u16)
    ensures
        r as int == out_seq(*sub, in_seq),
{
    let delta_seq = match sub.last_in_seq {
        Some(last_in) => in_seq.wrapping_sub(last_in),
        None => 0,
    };
    match sub.last_out_seq {
        Some(o) => o.wrapping_add(delta_seq),
        None => in_seq,
    }
}

fn next_out_ts(sub: &Subscriber, in_ts: u32) -> (r: u32)
    ensures
        r as int == out_ts(*sub, in_ts),
{
    let delta_ts = match sub.last_in_ts {
        Some(last_in_ts) => in_ts.wrapping_sub(last_in_ts),
        None => 0,
    };
    match sub.last_out_ts {
        Some(t) => t.wrapping_add(delta_ts),
        None => in_ts,
    }
}

/// The packet `pkt`, held in `buf`, rewritten for `sub`.
pub fn forward_packet(
    pkt: &RtpPacket,
    buf: &Arc<Bytes>,
    sub: &Subscriber,
    map: &ExtensionMap,
) -> (o: OutgoingPacket)
    requires
        pkt.wf(),
    ensures
        forwarded(o, pkt.raw_bytes(), *buf, *sub, *map),
{
    let in_seq = pkt.sequence_number;
    let in_ts = pkt.timestamp;
    let o_seq = next_out_seq(sub, in_seq);
    let o_ts = next_out_ts(sub, in_ts);
    let seq_delta = (o_seq as i32) - (in_seq as i32);
    let ts_delta = (o_ts as i64) - (in_ts as i64);
    assert((in_seq as int + seq_delta as int) % 65536 == o_seq as int);
    assert((in_ts as int + ts_delta as int) % 0x1_0000_0000 == o_ts as int);
    let header = pkt.build_rewrite_header(sub.rewrite_ssrc, seq_delta, ts_delta);
    proof {
        assert(pkt.raw@.len() == pkt.raw.len());
        lemma_found_extension_in_header(pkt.raw@, map.id_of(ExtensionKind::TransportCc), 0);
    }
    let transport_cc = pkt.get_extension::<TransportCc>(map);
    assert(pkt.raw@.len() == pkt.raw.len());
    let payload_range = pkt.payload_offset..(pkt.payload_offset + pkt.payload_len);
    OutgoingPacket {
        header,
        payload: share_buf(buf),
        payload_range,
        dest_ssrc: sub.rewrite_ssrc,
        transport_cc,
    }
}

/// A subscriber that has not been sent anything gets every packet with its
/// sequence number and timestamp unchanged: only the SSRC is rewritten.
pub proof fn law_fresh_subscriber_changes_only_ssrc(
    o: OutgoingPacket,
    raw: Seq<u8>,
    buf: Arc<Bytes>,
    rewrite_ssrc: u32,
    map: ExtensionMap,
)
    requires
        parse_error(raw) is None,
        forwarded(o, raw, buf, fresh_subscriber(rewrite_ssrc), map),
    ensures
        header_bytes(o.header) == put_be32(raw.subrange(0, header_len(raw)), 8, rewrite_ssrc as int),
{
    let h = raw.subrange(0, header_len(raw));
    assert(be16(h, 2) == be16(raw, 2));
    assert(be32(h, 4) == be32(raw, 4));
    law_rewrite_with_own_fields_is_identity(h);
    let a = put_be32(put_be16(h, 2, be16(h, 2)), 4, be32(h, 4));
    assert(put_be32(put_be32(a, 8, be32(h, 8)), 8, rewrite_ssrc as int) =~= put_be32(a, 8, rewrite_ssrc as int));
}

/// Once a subscriber has history, the distance between the sequence numbers
/// (and between the timestamps) it is sent and its last sent ones equals the
/// distance between the incoming ones and the last incoming ones, modulo
/// 2^16 (2^32): the stream it sees has no gaps or jumps of its own.
pub proof fn law_subscriber_numbering_follows_input(sub: Subscriber, in_seq: u16, in_ts: u32)
    ensures
        (sub.last_in_seq, sub.last_out_seq) matches (Some(a), Some(b)) ==> (out_seq(sub, in_seq) - b)
            % 65536 == (in_seq - a) % 65536,
        (sub.last_in_ts, sub.last_out_ts) matches (Some(a), Some(b)) ==> (out_ts(sub, in_ts) - b)
            % 0x1_0000_0000 == (in_ts - a) % 0x1_0000_0000,
{
    if let (Some(a), Some(b)) = (sub.last_in_seq, sub.last_out_seq) {
        let d = (in_seq - a) % 65536;
        assert(((b + d) % 65536 - b) % 65536 == d) by (nonlinear_arith)
            requires
                0 <= d < 65536,
                0 <= b < 65536,
        ;
    }
    if let (Some(a), Some(b)) = (sub.last_in_ts, sub.last_out_ts) {
        let d = (in_ts - a) % 0x1_0000_0000;
        assert(((b + d) % 0x1_0000_0000 - b) % 0x1_0000_0000 == d) by (nonlinear_arith)
            requires
                0 <= d < 0x1_0000_0000,
                0 <= b < 0x1_0000_0000,
        ;
    }
}

/// What the router keeps per publisher.
pub struct PublisherState {
    subscribers: SubscriberCell,
    extensions: ExtensionMap,
    feedback_cb: Option<FeedbackHandle>,
    feedback_sender: Option<Sender<(u32, u16)>>,
    pli_sender: Option<Sender<u32>>,
    retrans_cache: Mutex<PacketCache>,
}

impl PublisherState {
    /// The extension ids negotiated for this publisher.
    pub closed spec fn extension_map(&self) -> ExtensionMap {
        self.extensions
    }

    fn new(extensions: ExtensionMap) -> (s: Self)
        ensures
            s.extensions == extensions,
            s.feedback_cb is None,
            s.feedback_sender is None,
            s.pli_sender is None,
    {
        PublisherState {
            subscribers: SubscriberCell::new(Vec::new()),
            extensions,
            feedback_cb: None,
            feedback_sender: None,
            pli_sender: None,
            retrans_cache: cache_lock_new(PacketCache::new()),
        }
    }
}

/// `subs` followed by a fresh subscriber that rewrites to `rewrite_ssrc`.
fn with_subscriber(subs: &Vec<Subscriber>, rewrite_ssrc: u32) -> (r: Vec<Subscriber>)
    ensures
        r@ == subs@.push(fresh_subscriber(rewrite_ssrc)),
{
    let mut next: Vec<Subscriber> = Vec::new();
    let mut i: usize = 0;
    while i < subs.len()
        invariant
            i <= subs@.len(),
            next@ == subs@.take(i as int),
        decreases subs@.len() - i,
    {
        next.push(subs[i]);
        assert(subs@.take(i + 1) == subs@.take(i as int).push(subs@[i as int]));
        i = i + 1;
    }
    assert(subs@.take(subs@.len() as int) == subs@);
    next.push(
        Subscriber {
            rewrite_ssrc,
            last_in_seq: None,
            last_out_seq: None,
            last_in_ts: None,
            last_out_ts: None,
        },
    );
    next
}

/// Adds a publisher state for `ssrc` unless the table already has one.
fn register_publisher(table: &mut HashMap<u32, PublisherState>, ssrc: u32, map: ExtensionMap)
    ensures
        final(table)@.dom() == old(table)@.dom().insert(ssrc),
        old(table)@.contains_key(ssrc) ==> final(table)@ == old(table)@,
        !old(table)@.contains_key(ssrc) ==> {
            let s = final(table)@[ssrc];
            &&& s.extensions == map
            &&& s.feedback_cb is None
            &&& s.feedback_sender is None
            &&& s.pli_sender is None
            &&& forall|k: u32| k != ssrc ==> #[trigger] final(table)@.contains_key(k) ==> final(table)@[k]
                == old(table)@[k]
        },
{
    broadcast use vstd::std_specs::hash::group_hash_axioms;

    if !table.contains_key(&ssrc) {
        table.insert(ssrc, PublisherState::new(map));
    }
}

/// Sets the feedback callback of publisher `ssrc`, if the table has one.
fn set_feedback_cb_in<F: FeedbackLoop + 'static>(table: &mut HashMap<u32, PublisherState>, ssrc: u32, cb: Arc<F>)
    ensures
        final(table)@.dom() == old(table)@.dom(),
        forall|k: u32| k != ssrc && #[trigger] old(table)@.contains_key(k) ==> final(table)@[k] == old(table)@[k],
        old(table)@.contains_key(ssrc) ==> {
            let (s0, s1) = (old(table)@[ssrc], final(table)@[ssrc]);
            &&& s1.feedback_cb is Some
            &&& s1.subscribers == s0.subscribers
            &&& s1.extensions == s0.extensions
            &&& s1.feedback_sender == s0.feedback_sender
            &&& s1.pli_sender == s0.pli_sender
            &&& s1.retrans_cache == s0.retrans_cache
        },
{
    broadcast use vstd::std_specs::hash::group_hash_axioms;

    if let Some(mut st) = table.remove(&ssrc) {
        st.feedback_cb = Some(FeedbackHandle::new(cb));
        table.insert(ssrc, st);
    }
    proof {
        assert(final(table)@.dom() =~= old(table)@.dom());
    }
}


/// Sets the TWCC feedback channel of publisher `ssrc`, if the table has one.
fn set_feedback_sender_in(table: &mut HashMap<u32, PublisherState>, ssrc: u32, sender: Sender<(u32, u16)>)
    ensures
        final(table)@.dom() == old(table)@.dom(),
        forall|k: u32| k != ssrc && #[trigger] old(table)@.contains_key(k) ==> final(table)@[k] == old(table)@[k],
        old(table)@.contains_key(ssrc) ==> {
            let (s0, s1) = (old(table)@[ssrc], final(table)@[ssrc]);
            &&& s1.feedback_sender == Some(sender)
            &&& s1.subscribers == s0.subscribers
            &&& s1.extensions == s0.extensions
            &&& s1.feedback_cb == s0.feedback_cb
            &&& s1.pli_sender == s0.pli_sender
            &&& s1.retrans_cache == s0.retrans_cache
        },
{
    broadcast use vstd::std_specs::hash::group_hash_axioms;

    if let Some(mut st) = table.remove(&ssrc) {
        st.feedback_sender = Some(sender);
        table.insert(ssrc, st);
    }
    proof {
        assert(final(table)@.dom() =~= old(table)@.dom());
    }
}

/// Sets the PLI channel of publisher `ssrc`, if the table has one.
fn set_pli_sender_in(table: &mut HashMap<u32, PublisherState>, ssrc: u32, sender: Sender<u32>)
    ensures
        final(table)@.dom() == old(table)@.dom(),
        forall|k: u32| k != ssrc && #[trigger] old(table)@.contains_key(k) ==> final(table)@[k] == old(table)@[k],
        old(table)@.contains_key(ssrc) ==> {
            let (s0, s1) = (old(table)@[ssrc], final(table)@[ssrc]);
            &&& s1.pli_sender == Some(sender)
            &&& s1.subscribers == s0.subscribers
            &&& s1.extensions == s0.extensions
            &&& s1.feedback_cb == s0.feedback_cb
            &&& s1.feedback_sender == s0.feedback_sender
            &&& s1.retrans_cache == s0.retrans_cache
        },
{
    broadcast use vstd::std_specs::hash::group_hash_axioms;

    if let Some(mut st) = table.remove(&ssrc) {
        st.pli_sender = Some(sender);
        table.insert(ssrc, st);
    }
    proof {
        assert(final(table)@.dom() =~= old(table)@.dom());
    }
}

/// `out` holds, in order, what the packet `raw` (held in `buf`) becomes for
/// each subscriber of `subs`, read through `map`.
pub open spec fn forwarded_to_all(
    out: Seq<OutgoingPacket>,
    raw: Seq<u8>,
    buf: Arc<Bytes>,
    subs: Seq<Subscriber>,
    map: ExtensionMap,
) -> bool {
    &&& out.len() == subs.len()
    &&& forall|k: int| 0 <= k < subs.len() ==> forwarded(#[trigger] out[k], raw, buf, subs[k], map)
}

/// Replaces the contents of `out` with the packet `pkt`, held in `buf`,
/// rewritten for each subscriber of `subs` in order.
pub fn fan_out(
    pkt: &RtpPacket,
    buf: &Arc<Bytes>,
    subs: &[Subscriber],
    map: &ExtensionMap,
    out: &mut OutgoingList,
)
    requires
        pkt.wf(),
    ensures
        forwarded_to_all(outgoing_items(*final(out)), pkt.raw_bytes(), *buf, subs@, *map),
{
    out.clear();
    let mut i: usize = 0;
    while i < subs.len()
        invariant
            pkt.wf(),
            i <= subs@.len(),
            forwarded_to_all(outgoing_items(*out), pkt.raw_bytes(), *buf, subs@.take(i as int), *map),
        decreases subs@.len() - i,
    {
        let op = forward_packet(pkt, buf, &subs[i], map);
        out.push(op);
        i = i + 1;
    }
    assert(subs@.take(subs@.len() as int) == subs@);
}

/// Records `pkt`, held in `buf`, in the retransmission cache `c` under its
/// sequence number.
pub fn cache_packet(c: &mut PacketCache, pkt: &RtpPacket, buf: &Arc<Bytes>)
    ensures
        final(c).view_slots() == old(c).view_slots().update(
            slot_of(pkt.sequence_number),
            Some((pkt.sequence_number, *buf)),
        ),
{
    c.store(pkt.sequence_number, share_buf(buf));
}

/// Routes `pkt`, held in `buf`, through the publisher table `table`: fails
/// with `UnknownPublisher` exactly when the table has no publisher with the
/// packet's SSRC; otherwise caches the packet in that publisher's
/// retransmission cache, reads the publisher's subscriber list, fills `out`
/// with the packet rewritten for each subscriber of that list, in order, read
/// through the publisher's negotiated extension map, reports the packet's
/// TWCC sequence number, if any, to its feedback receivers once per
/// subscriber, and returns the subscriber list it served.
pub fn route_in(
    table: &HashMap<u32, PublisherState>,
    pkt: &RtpPacket,
    buf: &Arc<Bytes>,
    out: &mut OutgoingList,
) -> (r: Result<Arc<Vec<Subscriber>>, Error>)
    requires
        pkt.wf(),
    ensures
        r is Err <==> !table@.contains_key(pkt.ssrc),
        r matches Err(e) ==> e == Error::UnknownPublisher && *final(out) == *old(out),
        r matches Ok(list) ==> {
            let raw = pkt.raw_bytes();
            let outs = outgoing_items(*final(out));
            &&& forwarded_to_all(outs, raw, *buf, (*list)@, table@[pkt.ssrc].extension_map())
            &&& all_fresh((*list)@)
            &&& outs.len() == (*list)@.len()
            &&& forall|k: int|
                0 <= k < outs.len() ==> #[trigger] outs[k].dest_ssrc == (*list)@[k].rewrite_ssrc
            &&& forall|k: int|
                0 <= k < outs.len() ==> header_bytes(#[trigger] outs[k].header) == put_be32(
                    raw.subrange(0, header_len(raw)),
                    8,
                    outs[k].dest_ssrc as int,
                )
        },
{
    broadcast use vstd::std_specs::hash::group_hash_axioms;

    let pub_ssrc = pkt.ssrc;
    let pubstate = match table.get(&pub_ssrc) {
        Some(s) => s,
        None => return Err(Error::UnknownPublisher),
    };
    {
        let mut cache = lock_cache(&pubstate.retrans_cache);
        cache_packet(cache.cache_mut(), pkt, buf);
    }
    let list = pubstate.subscribers.load();
    let subs: &Vec<Subscriber> = &*list;
    let map = &pubstate.extensions;
    fan_out(pkt, buf, subs.as_slice(), map, out);
    proof {
        let raw = pkt.raw@;
        let outs = outgoing_items(*out);
        assert forall|k: int| 0 <= k < outs.len() implies header_bytes(#[trigger] outs[k].header)
            == put_be32(raw.subrange(0, header_len(raw)), 8, outs[k].dest_ssrc as int) by {
            assert(forwarded(outs[k], raw, *buf, subs@[k], *map));
            assert(subs@[k] == fresh_subscriber(subs@[k].rewrite_ssrc));
            law_fresh_subscriber_changes_only_ssrc(outs[k], raw, *buf, subs@[k].rewrite_ssrc, *map);
        }
        assert(*pubstate == table@[pub_ssrc]);
        assert(table@[pub_ssrc].extension_map() == *map);
        assert(forwarded_to_all(outs, raw, *buf, subs@, table@[pkt.ssrc].extension_map()) && all_fresh(subs@));
        assert forall|k: int| 0 <= k < outs.len() implies #[trigger] outs[k].dest_ssrc == subs@[k].rewrite_ssrc by {
            assert(forwarded(outs[k], raw, *buf, subs@[k], *map));
        }
        assert(pkt.raw@.len() == pkt.raw.len());
        lemma_found_extension_in_header(pkt.raw@, map.id_of(ExtensionKind::TransportCc), 0);
    }
    if let Some(twcc) = pkt.get_extension::<TransportCc>(map) {
        let mut i: usize = 0;
        while i < subs.len()
            decreases subs@.len() - i,
        {
            if let Some(cb) = &pubstate.feedback_cb {
                cb.on_twcc(pub_ssrc, twcc);
            }
            if let Some(s) = &pubstate.feedback_sender {
                offer_twcc(s, pub_ssrc, twcc);
            }
            i = i + 1;
        }
    }
    Ok(list)
}

/// Answers a NACK through the publisher table `table`: fails with
/// `UnknownPublisher` exactly when the table has no publisher
/// `publisher_ssrc`; otherwise returns what that publisher's retransmission
/// cache holds for `lost_seqs`.
pub fn handle_nack_in(table: &HashMap<u32, PublisherState>, publisher_ssrc: u32, lost_seqs: &[u16]) -> (r:
    Result<Vec<Arc<Bytes>>, Error>)
    ensures
        r is Err <==> !table@.contains_key(publisher_ssrc),
        match r {
            Ok(resp) => exists|slots: Seq<Option<(u16, Arc<Bytes>)>>|
                #![trigger nack_response(slots, lost_seqs@)]
                slots.len() == 512 && resp@ == nack_response(slots, lost_seqs@),
            Err(e) => e == Error::UnknownPublisher,
        },
{
    broadcast use vstd::std_specs::hash::group_hash_axioms;

    let pubstate = match table.get(&publisher_ssrc) {
        Some(s) => s,
        None => return Err(Error::UnknownPublisher),
    };
    let cache = lock_cache(&pubstate.retrans_cache);
    let resp = cache.cache().lookup_all(lost_seqs);
    Ok(resp)
}

/// Routes packets from publishers to their subscribers.
///
/// The publisher table sits behind a read-write lock; each publisher's
/// subscriber list sits in an atomically replaced cell and its
/// retransmission cache behind a mutex, so that routing runs concurrently
/// with registration.
pub struct MediaRouter {
    inner: RwLock<HashMap<u32, PublisherState>>,
}

impl MediaRouter {
    pub fn new() -> Self {
        MediaRouter { inner: table_lock_new(HashMap::new()) }
    }

    /// Registers publisher `ssrc` with no negotiated extensions, unless it is
    /// registered already.
    pub fn add_publisher(&self, ssrc: u32) {
        let mut w = write_table(&self.inner);
        register_publisher(w.table_mut(), ssrc, ExtensionMap::new());
    }

    /// Registers publisher `ssrc` with the extension ids of `map`, unless it
    /// is registered already.
    pub fn add_publisher_with_extensions(&self, ssrc: u32, map: ExtensionMap) {
        let mut w = write_table(&self.inner);
        register_publisher(w.table_mut(), ssrc, map);
    }

    /// Makes `cb` receive the TWCC feedback of publisher `ssrc`, if registered.
    pub fn set_feedback_callback<F: FeedbackLoop + 'static>(&self, ssrc: u32, cb: Arc<F>) {
        let mut w = write_table(&self.inner);
        set_feedback_cb_in(w.table_mut(), ssrc, cb);
    }

    /// Makes `sender` receive the TWCC feedback of publisher `ssrc`, if registered.
    pub fn set_feedback_sender(&self, ssrc: u32, sender: Sender<(u32, u16)>) {
        let mut w = write_table(&self.inner);
        set_feedback_sender_in(w.table_mut(), ssrc, sender);
    }

    /// Records `sender` as the PLI channel of publisher `ssrc`, if registered.
    pub fn set_pli_sender(&self, ssrc: u32, sender: Sender<u32>) {
        let mut w = write_table(&self.inner);
        set_pli_sender_in(w.table_mut(), ssrc, sender);
    }

    /// Appends a subscriber, rewriting to `rewrite_ssrc`, to the list of
    /// publisher `publisher_ssrc`, if registered: the list is copied, extended
    /// and published as a whole, under the exclusive table lock so that two
    /// additions never both start from the same list.
    pub fn add_subscriber(&self, publisher_ssrc: u32, rewrite_ssrc: u32) {
        let mut w = write_table(&self.inner);
        if let Some(pubstate) = w.table_mut().get(&publisher_ssrc) {
            let current = pubstate.subscribers.load();
            let next = with_subscriber(&*current, rewrite_ssrc);
            pubstate.subscribers.store(Arc::new(next));
        }
    }

    /// The cached packets of publisher `publisher_ssrc` for the sequence
    /// numbers in `lost_seqs`, in order, leaving out those not cached.
    pub fn handle_nack(&self, publisher_ssrc: u32, lost_seqs: &[u16]) -> (r: Result<Vec<Arc<Bytes>>, Error>)
        ensures
            match r {
                Ok(resp) => exists|slots: Seq<Option<(u16, Arc<Bytes>)>>|
                    #![trigger nack_response(slots, lost_seqs@)]
                    slots.len() == 512 && resp@ == nack_response(slots, lost_seqs@),
                Err(e) => e == Error::UnknownPublisher,
            },
    {
        let readers = read_table(&self.inner);
        handle_nack_in(readers.table(), publisher_ssrc, lost_seqs)
    }

    /// Parses `buf`, caches it for retransmission and appends to `out`
    /// (after clearing it) one rewritten packet per subscriber of its
    /// publisher, reporting its TWCC sequence number, if any, to the
    /// publisher's feedback receivers once per subscriber.
    pub fn route(&self, buf: Arc<Bytes>, out: &mut OutgoingList) -> (r: Result<(), Error>)
        ensures
            match r {
                Err(Error::Rtp(e)) => parse_error(bytes_data(*buf)) == Some(e) && *final(out) == *old(
                    out,
                ),
                Err(Error::UnknownPublisher) => parse_error(bytes_data(*buf)) is None && *final(out)
                    == *old(out),
                Ok(()) => {
                    let raw = bytes_data(*buf);
                    let outs = outgoing_items(*final(out));
                    &&& parse_error(raw) is None
                    &&& exists|subs: Seq<Subscriber>, map: ExtensionMap|
                        #![trigger forwarded_to_all(outs, raw, buf, subs, map)]
                        forwarded_to_all(outs, raw, buf, subs, map) && all_fresh(subs)
                    &&& forall|k: int|
                        0 <= k < outs.len() ==> header_bytes(#[trigger] outs[k].header) == put_be32(
                            raw.subrange(0, header_len(raw)),
                            8,
                            outs[k].dest_ssrc as int,
                        )
                },
            },
    {
        let pkt = match RtpPacket::try_from(&*buf) {
            Ok(p) => p,
            Err(e) => return Err(Error::Rtp(e)),
        };
        let readers = read_table(&self.inner);
        match route_in(readers.table(), &pkt, &buf, out) {
            Ok(_) => Ok(()),
            Err(e) => Err(e),
        }
    }
}

} // verus!
