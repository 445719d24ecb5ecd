use bytes::Bytes;
use sfu_core::inline_vec::OutgoingList;
use sfu_core::router::{fan_out, forward_packet, Error, FeedbackLoop, MediaRouter, Subscriber};
use sfu_core::rtp::{Error as RtpError, ExtensionMap, ExtensionMapBuilder, RtpPacket};
use std::sync::atomic::{AtomicUsize, Ordering};
use std::sync::Arc;

fn make_rtp(ssrc: u32, seq: u16, ts: u32, payload: &[u8]) -> Arc<Bytes> {
    let mut v = Vec::with_capacity(12 + payload.len());
    v.push(0x80);
    v.push(96);
    v.push((seq >> 8) as u8);
    v.push((seq & 0xff) as u8);
    v.extend_from_slice(&ts.to_be_bytes());
    v.extend_from_slice(&ssrc.to_be_bytes());
    v.extend_from_slice(payload);
    Arc::new(Bytes::from(v))
}

fn twcc_packet(ssrc: u32, twcc: [u8; 2]) -> Arc<Bytes> {
    let mut pkt = Vec::with_capacity(12 + 4 + 4);
    pkt.push(0x90);
    pkt.push(96);
    pkt.extend_from_slice(&1u16.to_be_bytes());
    pkt.extend_from_slice(&1u32.to_be_bytes());
    pkt.extend_from_slice(&ssrc.to_be_bytes());
    pkt.push(0xBE);
    pkt.push(0xDE);
    pkt.push(0);
    pkt.push(1);
    pkt.push((3 << 4) | (2 - 1));
    pkt.push(twcc[0]);
    pkt.push(twcc[1]);
    pkt.push(0);
    Arc::new(Bytes::from(pkt))
}

#[test]
fn concurrent_add_subscriber_and_route() {
    // Routes and subscriber registrations interleave on one thread.
    let router = Arc::new(MediaRouter::new());
    let pub_ssrc = 0x11223344;
    router.add_publisher(pub_ssrc);
    let router_clone = router.clone();
    for i in 0..1000u16 {
        if i % 100 == 0 {
            router.add_subscriber(pub_ssrc, 0xdead0000 + (i / 100) as u32);
        }
        let pkt = make_rtp(pub_ssrc, i, i as u32 * 3000, b"payload");
        let mut out = OutgoingList::new();
        let res = router_clone.route(pkt, &mut out);
        assert!(res.is_ok());
    }
    let pkt = make_rtp(pub_ssrc, 42, 42000, b"end");
    let mut out = OutgoingList::new();
    router.route(pkt, &mut out).unwrap();
    assert!(!out.as_slice().is_empty());
    assert_eq!(out.as_slice().len(), 10);
}

struct CounterCallback {
    cnt: Arc<AtomicUsize>,
}

impl FeedbackLoop for CounterCallback {
    fn on_twcc(&self, _publisher_ssrc: u32, _seq: u16) {
        self.cnt.fetch_add(1, Ordering::SeqCst);
    }
    fn on_pli(&self, _publisher_ssrc: u32) {}
}

#[test]
fn feedback_callback_invoked() {
    let router = Arc::new(MediaRouter::new());
    let pub_ssrc = 0x5555_6666;
    let mut builder = ExtensionMapBuilder::new();
    builder = builder.with_pairs(vec![(3u8, "urn:ietf:params:rtp-hdrext:transport-wide-cc")]);
    let map = builder.build();
    router.add_publisher_with_extensions(pub_ssrc, map);
    let counter = Arc::new(AtomicUsize::new(0));
    let cb = Arc::new(CounterCallback { cnt: counter.clone() });
    router.set_feedback_callback(pub_ssrc, cb);
    router.add_subscriber(pub_ssrc, 0x1111);
    let pkt = twcc_packet(pub_ssrc, [0x12, 0x34]);
    let mut out = OutgoingList::new();
    router.route(pkt, &mut out).unwrap();
    assert!(counter.load(Ordering::SeqCst) >= 1);
}

#[test]
fn route_fans_out_with_rewritten_ssrc_and_shared_payload() {
    let router = MediaRouter::new();
    let pub_ssrc = 0x0102_0304;
    router.add_publisher(pub_ssrc);
    router.add_subscriber(pub_ssrc, 0xaaaa_0001);
    router.add_subscriber(pub_ssrc, 0xaaaa_0002);
    router.add_subscriber(pub_ssrc, 0xaaaa_0003);
    let pkt = make_rtp(pub_ssrc, 0x0a0b, 0x1122_3344, &[9, 8, 7]);
    let mut out = OutgoingList::new();
    router.route(pkt.clone(), &mut out).unwrap();
    let outs = out.as_slice();
    assert_eq!(outs.len(), 3);
    for (k, o) in outs.iter().enumerate() {
        let ssrc = 0xaaaa_0001u32 + k as u32;
        assert_eq!(o.dest_ssrc, ssrc);
        assert!(Arc::ptr_eq(&o.payload, &pkt));
        assert_eq!(o.payload_range, 12..15);
        assert_eq!(o.transport_cc, None);
        let mut expected = pkt[..12].to_vec();
        expected[8..12].copy_from_slice(&ssrc.to_be_bytes());
        assert_eq!(o.header.as_slice(), &expected[..]);
    }
}

#[test]
fn route_with_no_subscribers_clears_output() {
    let router = MediaRouter::new();
    router.add_publisher(7);
    let mut out = OutgoingList::new();
    router.add_subscriber(7, 1);
    router.route(make_rtp(7, 1, 1, b"x"), &mut out).unwrap();
    assert_eq!(out.as_slice().len(), 1);
    router.add_publisher(8);
    router.route(make_rtp(8, 1, 1, b"x"), &mut out).unwrap();
    assert_eq!(out.as_slice().len(), 0);
}

#[test]
fn route_unknown_publisher_is_refused() {
    let router = MediaRouter::new();
    router.add_publisher(1);
    let mut out = OutgoingList::new();
    let r = router.route(make_rtp(2, 1, 1, b"x"), &mut out);
    assert_eq!(r, Err(Error::UnknownPublisher));
}

#[test]
fn route_malformed_packet_reports_parse_error() {
    let router = MediaRouter::new();
    router.add_publisher(1);
    let mut out = OutgoingList::new();
    let r = router.route(Arc::new(Bytes::from(vec![0x80u8, 96, 0])), &mut out);
    assert_eq!(r, Err(Error::Rtp(RtpError::Truncated)));
    let mut bad = make_rtp(1, 1, 1, b"x").to_vec();
    bad[0] = 0x40;
    let r = router.route(Arc::new(Bytes::from(bad)), &mut out);
    assert_eq!(r, Err(Error::Rtp(RtpError::InvalidVersion)));
}

#[test]
fn rtp_error_converts_into_router_error() {
    assert_eq!(Error::from(RtpError::ExtensionOverflow), Error::Rtp(RtpError::ExtensionOverflow));
}

#[test]
fn add_publisher_twice_keeps_first_registration() {
    let router = MediaRouter::new();
    let map = ExtensionMapBuilder::new().with_pairs(vec![(3u8, "transport-wide-cc")]).build();
    router.add_publisher_with_extensions(5, map);
    router.add_publisher(5);
    router.add_subscriber(5, 9);
    let mut out = OutgoingList::new();
    router.route(twcc_packet(5, [0xab, 0xcd]), &mut out).unwrap();
    assert_eq!(out.as_slice()[0].transport_cc, Some(0xabcd));
}

#[test]
fn nack_returns_cached_packets_in_order() {
    let router = MediaRouter::new();
    router.add_publisher(1);
    let mut out = OutgoingList::new();
    let p10 = make_rtp(1, 10, 0, b"a");
    let p11 = make_rtp(1, 11, 0, b"b");
    router.route(p10.clone(), &mut out).unwrap();
    router.route(p11.clone(), &mut out).unwrap();
    let resp = router.handle_nack(1, &[11, 12, 10]).unwrap();
    assert_eq!(resp.len(), 2);
    assert!(Arc::ptr_eq(&resp[0], &p11));
    assert!(Arc::ptr_eq(&resp[1], &p10));
    // 10 + 512 shares the slot of 10 and evicts it
    router.route(make_rtp(1, 522, 0, b"c"), &mut out).unwrap();
    let resp = router.handle_nack(1, &[10]).unwrap();
    assert!(resp.is_empty());
}

#[test]
fn nack_for_unknown_publisher_is_refused() {
    let router = MediaRouter::new();
    assert_eq!(router.handle_nack(3, &[1]).err(), Some(Error::UnknownPublisher));
}

#[test]
fn feedback_sender_receives_twcc_once_per_subscriber() {
    let router = MediaRouter::new();
    let map = ExtensionMapBuilder::new()
        .with_pairs(vec![(3u8, "http://www.ietf.org/id/draft-holmer-rmcat-transport-wide-cc-extensions-01")])
        .build();
    router.add_publisher_with_extensions(0xfeed_f00d, map);
    let (tx, rx) = crossbeam_channel::unbounded();
    router.set_feedback_sender(0xfeed_f00d, tx);
    let (ptx, _prx) = crossbeam_channel::unbounded();
    router.set_pli_sender(0xfeed_f00d, ptx);
    router.add_subscriber(0xfeed_f00d, 1);
    router.add_subscriber(0xfeed_f00d, 2);
    let mut out = OutgoingList::new();
    router.route(twcc_packet(0xfeed_f00d, [0x01, 0x02]), &mut out).unwrap();
    assert_eq!(rx.try_recv(), Ok((0xfeed_f00d, 0x0102)));
    assert_eq!(rx.try_recv(), Ok((0xfeed_f00d, 0x0102)));
    assert!(rx.try_recv().is_err());
}

#[test]
fn subscriber_numbering_follows_input() {
    let buf = make_rtp(1, 1005, 90_000 + 3000, b"p");
    let pkt = RtpPacket::parse(&buf).unwrap();
    let sub = Subscriber {
        rewrite_ssrc: 77,
        last_in_seq: Some(1000),
        last_out_seq: Some(65534),
        last_in_ts: Some(90_000),
        last_out_ts: Some(0xffff_ff00),
    };
    let o = forward_packet(&pkt, &buf, &sub, &ExtensionMap::new());
    let h = o.header.as_slice();
    // 65534 + 5 wraps to 3; 0xffff_ff00 + 3000 wraps to 2744
    assert_eq!(&h[2..4], &3u16.to_be_bytes());
    assert_eq!(&h[4..8], &2744u32.to_be_bytes());
    assert_eq!(&h[8..12], &77u32.to_be_bytes());
    assert_eq!(o.dest_ssrc, 77);
    assert_eq!(o.payload_range, 12..13);
}

#[test]
fn fan_out_rewrites_for_each_subscriber_in_order() {
    let buf = twcc_packet(4, [0x00, 0x07]);
    let pkt = RtpPacket::parse(&buf).unwrap();
    let map = ExtensionMapBuilder::new().with_pairs(vec![(3u8, "transport-wide-cc")]).build();
    let fresh = |ssrc: u32| Subscriber {
        rewrite_ssrc: ssrc,
        last_in_seq: None,
        last_out_seq: None,
        last_in_ts: None,
        last_out_ts: None,
    };
    let subs = vec![fresh(10), fresh(20)];
    let mut out = OutgoingList::new();
    fan_out(&pkt, &buf, &subs, &map, &mut out);
    fan_out(&pkt, &buf, &subs, &map, &mut out);
    let outs = out.as_slice();
    assert_eq!(outs.len(), 2);
    assert_eq!(outs[0].dest_ssrc, 10);
    assert_eq!(outs[1].dest_ssrc, 20);
    assert_eq!(outs[1].transport_cc, Some(7));
    assert_eq!(outs[1].payload_range, 20..20);
    assert_eq!(&outs[1].header.as_slice()[8..12], &20u32.to_be_bytes());
    assert_eq!(&outs[1].header.as_slice()[12..], &buf[12..20]);
}
