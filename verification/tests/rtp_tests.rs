use bytes::Bytes;
use sfu_core::packet_cache::PacketCache;
use sfu_core::rtp::{
    Error, ExtensionKind, ExtensionMap, ExtensionMapBuilder, ExtensionType, HeaderExtension,
    RtpPacket, TransportCc,
};
use std::convert::TryFrom;
use std::sync::Arc;

fn fixed_header(b0: u8, b1: u8, seq: u16, ts: u32, ssrc: u32) -> Vec<u8> {
    let mut v = vec![b0, b1];
    v.extend_from_slice(&seq.to_be_bytes());
    v.extend_from_slice(&ts.to_be_bytes());
    v.extend_from_slice(&ssrc.to_be_bytes());
    v
}

#[test]
fn parse_fixed_header_fields() {
    let mut v = fixed_header(0x80, 0xe0, 0x1234, 0xdeadbeef, 0x01020304);
    v.extend_from_slice(&[1, 2, 3]);
    let p = RtpPacket::parse(&v).unwrap();
    assert_eq!(p.version, 2);
    assert!(!p.padding);
    assert!(!p.extension);
    assert_eq!(p.csrc_count, 0);
    assert!(p.marker);
    assert_eq!(p.payload_type, 0x60);
    assert_eq!(p.sequence_number, 0x1234);
    assert_eq!(p.timestamp, 0xdeadbeef);
    assert_eq!(p.ssrc, 0x01020304);
    assert_eq!(p.payload_offset, 12);
    assert_eq!(p.payload_len, 3);
    assert_eq!(p.payload(), &[1, 2, 3]);
    assert_eq!(p.header_slice(), &v[..12]);
    assert!(p.csrcs.as_slice().is_empty());
    assert!(p.extensions.as_slice().is_empty());
    assert_eq!(p.into_bytes(), &v[..]);
}

#[test]
fn parse_short_packet_is_truncated() {
    assert_eq!(RtpPacket::parse(&[0x80; 11]).err(), Some(Error::Truncated));
    assert_eq!(RtpPacket::parse(&[]).err(), Some(Error::Truncated));
}

#[test]
fn parse_wrong_version_is_invalid() {
    let v = fixed_header(0x40, 0, 0, 0, 0);
    assert_eq!(RtpPacket::parse(&v).err(), Some(Error::InvalidVersion));
    let v = fixed_header(0xc0, 0, 0, 0, 0);
    assert_eq!(RtpPacket::parse(&v).err(), Some(Error::InvalidVersion));
}

#[test]
fn parse_csrc_list() {
    let mut v = fixed_header(0x82, 0, 1, 2, 3);
    v.extend_from_slice(&0xaabbccddu32.to_be_bytes());
    v.extend_from_slice(&0x11223344u32.to_be_bytes());
    v.push(0xff);
    let p = RtpPacket::parse(&v).unwrap();
    assert_eq!(p.csrc_count, 2);
    assert_eq!(p.csrcs.as_slice(), &[0xaabbccdd, 0x11223344]);
    assert_eq!(p.payload_offset, 20);
    assert_eq!(p.payload(), &[0xff]);
}

#[test]
fn parse_missing_csrc_is_truncated() {
    let mut v = fixed_header(0x82, 0, 1, 2, 3);
    v.extend_from_slice(&[0, 0, 0, 1, 0, 0]);
    assert_eq!(RtpPacket::parse(&v).err(), Some(Error::Truncated));
}

#[test]
fn parse_one_byte_extensions() {
    let mut v = fixed_header(0x90, 96, 1, 1, 7);
    // profile 0xBEDE, 2 words: id 1 len 2, a padding byte, id 2 len 1, then 2 bytes padding
    v.extend_from_slice(&[0xBE, 0xDE, 0x00, 0x02]);
    v.extend_from_slice(&[0x11, 0xaa, 0xbb, 0x00, 0x20, 0xcc, 0x00, 0x00]);
    v.extend_from_slice(&[5, 6]);
    let p = RtpPacket::parse(&v).unwrap();
    assert_eq!(
        p.extensions.as_slice(),
        &[
            HeaderExtension { id: 1, offset: 17, len: 2 },
            HeaderExtension { id: 2, offset: 21, len: 1 },
        ]
    );
    assert_eq!(p.payload_offset, 24);
    assert_eq!(p.payload(), &[5, 6]);
    assert_eq!(p.get_extension_by_id(1), Some(&[0xaa, 0xbb][..]));
    assert_eq!(p.get_extension_by_id(2), Some(&[0xcc][..]));
    assert_eq!(p.get_extension_by_id(3), None);
    assert_eq!(p.twcc_seq(1), Some(0xaabb));
    assert_eq!(p.twcc_seq(2), None);
}

#[test]
fn parse_one_byte_element_overrunning_block_ends_list() {
    let mut v = fixed_header(0x90, 96, 1, 1, 7);
    v.extend_from_slice(&[0xBE, 0xDE, 0x00, 0x01]);
    // id 1 len 1, then id 2 claiming 4 bytes where only 1 is left
    v.extend_from_slice(&[0x10, 0xaa, 0x23, 0x00]);
    let p = RtpPacket::parse(&v).unwrap();
    assert_eq!(p.extensions.as_slice(), &[HeaderExtension { id: 1, offset: 17, len: 1 }]);
    assert_eq!(p.payload_len, 0);
}

#[test]
fn parse_two_byte_extensions() {
    let mut v = fixed_header(0x90, 96, 1, 1, 7);
    v.extend_from_slice(&[0x10, 0x00, 0x00, 0x02]);
    v.extend_from_slice(&[7, 3, 1, 2, 3, 9, 0, 0]);
    let p = RtpPacket::parse(&v).unwrap();
    assert_eq!(
        p.extensions.as_slice(),
        &[
            HeaderExtension { id: 7, offset: 18, len: 3 },
            HeaderExtension { id: 9, offset: 23, len: 0 },
        ]
    );
    assert_eq!(p.get_extension_by_id(9), Some(&[][..]));
    assert_eq!(p.twcc_seq(7), Some(0x0102));
    assert_eq!(p.twcc_seq(9), None);
}

#[test]
fn parse_extension_header_missing_is_truncated() {
    let mut v = fixed_header(0x90, 96, 1, 1, 7);
    v.extend_from_slice(&[0xBE, 0xDE, 0x00]);
    assert_eq!(RtpPacket::parse(&v).err(), Some(Error::Truncated));
}

#[test]
fn parse_extension_block_past_end_overflows() {
    let mut v = fixed_header(0x90, 96, 1, 1, 7);
    v.extend_from_slice(&[0xBE, 0xDE, 0x00, 0x02, 0x10, 0x01, 0x00, 0x00]);
    assert_eq!(RtpPacket::parse(&v).err(), Some(Error::ExtensionOverflow));
}

#[test]
fn parse_padding_rules() {
    let mut v = fixed_header(0xa0, 96, 1, 1, 7);
    v.extend_from_slice(&[1, 2, 0, 3]);
    let p = RtpPacket::parse(&v).unwrap();
    assert!(p.padding);
    assert_eq!(p.payload_len, 4);
    let empty = fixed_header(0xa0, 96, 1, 1, 7);
    assert_eq!(RtpPacket::parse(&empty).err(), Some(Error::Truncated));
    let mut over = fixed_header(0xa0, 96, 1, 1, 7);
    over.extend_from_slice(&[1, 5]);
    assert_eq!(RtpPacket::parse(&over).err(), Some(Error::Truncated));
}

#[test]
fn try_from_bytes_parses() {
    let b = Bytes::from(fixed_header(0x80, 96, 9, 10, 11));
    let p = RtpPacket::try_from(&b).unwrap();
    assert_eq!(p.sequence_number, 9);
    assert_eq!(p.ssrc, 11);
    let short = Bytes::from(vec![0x80u8; 4]);
    assert_eq!(RtpPacket::try_from(&short).err(), Some(Error::Truncated));
}

#[test]
fn rewrite_header_replaces_fields() {
    let mut v = fixed_header(0x80, 96, 0x0102, 0x03040506, 0x0708090a);
    v.extend_from_slice(&[0xee]);
    let p = RtpPacket::parse(&v).unwrap();
    let h = p.build_rewrite_header(0xa1b2c3d4, 0x10, 0x100);
    assert_eq!(
        h.as_slice(),
        &[0x80, 96, 0x01, 0x12, 0x03, 0x04, 0x06, 0x06, 0xa1, 0xb2, 0xc3, 0xd4]
    );
}

#[test]
fn rewrite_header_wraps_around() {
    let v = fixed_header(0x80, 96, 0xfffe, 0xffff_fff0, 1);
    let p = RtpPacket::parse(&v).unwrap();
    let h = p.build_rewrite_header(1, 3, 0x20);
    assert_eq!(&h.as_slice()[2..8], &[0x00, 0x01, 0x00, 0x00, 0x00, 0x10]);
    let h = p.build_rewrite_header(1, -0xffff, -0x1_0000_0000);
    assert_eq!(&h.as_slice()[2..8], &[0xff, 0xff, 0xff, 0xff, 0xff, 0xf0]);
    let h = p.build_rewrite_header(1, i32::MIN, i64::MIN);
    assert_eq!(&h.as_slice()[2..8], &[0xff, 0xfe, 0xff, 0xff, 0xff, 0xf0]);
}

#[test]
fn rewrite_header_keeps_extension_block() {
    let mut v = fixed_header(0x90, 96, 1, 1, 7);
    v.extend_from_slice(&[0xBE, 0xDE, 0x00, 0x01, 0x31, 0x12, 0x34, 0x00, 0x55]);
    let p = RtpPacket::parse(&v).unwrap();
    let h = p.build_rewrite_header(8, 0, 0);
    let mut expected = v[..20].to_vec();
    expected[8..12].copy_from_slice(&8u32.to_be_bytes());
    assert_eq!(h.as_slice(), &expected[..]);
}

#[test]
fn extension_map_set_and_get() {
    let mut m = ExtensionMap::new();
    assert_eq!(m.get_id(ExtensionKind::TransportCc), None);
    m.set(ExtensionKind::TransportCc, 5);
    assert_eq!(m.get_id(ExtensionKind::TransportCc), Some(5));
    m.set(ExtensionKind::TransportCc, 0);
    assert_eq!(m.get_id(ExtensionKind::TransportCc), None);
}

#[test]
fn builder_maps_transport_cc_uri() {
    let m = ExtensionMapBuilder::new()
        .with_pairs(vec![
            (1u8, "urn:ietf:params:rtp-hdrext:ssrc-audio-level"),
            (3u8, "http://www.ietf.org/id/draft-holmer-rmcat-transport-wide-cc-extensions-01"),
            (4u8, "urn:ietf:params:rtp-hdrext:sdes:mid"),
        ])
        .build();
    assert_eq!(m.get_id(ExtensionKind::TransportCc), Some(3));
    let none = ExtensionMapBuilder::new().with_pairs(vec![(2u8, "transport-wide")]).build();
    assert_eq!(none.get_id(ExtensionKind::TransportCc), None);
    let last = ExtensionMapBuilder::new()
        .with_pairs(vec![(2u8, "a transport-wide-cc"), (6u8, "transport-wide-cc")])
        .build();
    assert_eq!(last.get_id(ExtensionKind::TransportCc), Some(6));
}

#[test]
fn get_extension_reads_transport_cc_through_map() {
    let mut v = fixed_header(0x90, 96, 1, 1, 7);
    v.extend_from_slice(&[0xBE, 0xDE, 0x00, 0x01, 0x31, 0x12, 0x34, 0x00]);
    let p = RtpPacket::parse(&v).unwrap();
    let map = ExtensionMapBuilder::new().with_pairs(vec![(3u8, "transport-wide-cc")]).build();
    assert_eq!(p.get_extension::<TransportCc>(&map), Some(0x1234));
    let other = ExtensionMapBuilder::new().with_pairs(vec![(4u8, "transport-wide-cc")]).build();
    assert_eq!(p.get_extension::<TransportCc>(&other), None);
    assert_eq!(p.get_extension::<TransportCc>(&ExtensionMap::new()), None);
}

#[test]
fn transport_cc_parse() {
    assert_eq!(TransportCc::parse(&[0xab, 0xcd, 0xef]), Some(0xabcd));
    assert_eq!(TransportCc::parse(&[0xab]), None);
}

#[test]
fn packet_cache_store_lookup_evict() {
    let mut c = PacketCache::new();
    let a = Arc::new(Bytes::from_static(b"a"));
    let b = Arc::new(Bytes::from_static(b"b"));
    assert!(c.lookup(7).is_none());
    c.store(7, a.clone());
    assert!(Arc::ptr_eq(&c.lookup(7).unwrap(), &a));
    assert!(c.lookup(7 + 512).is_none());
    c.store(7 + 512, b.clone());
    assert!(c.lookup(7).is_none());
    assert!(Arc::ptr_eq(&c.lookup(519).unwrap(), &b));
    c.store(8, a.clone());
    let all = c.lookup_all(&[8, 7, 519, 8]);
    assert_eq!(all.len(), 3);
    assert!(Arc::ptr_eq(&all[0], &a));
    assert!(Arc::ptr_eq(&all[1], &b));
    assert!(Arc::ptr_eq(&all[2], &a));
}

#[test]
fn rewritten_header_reads_back_new_fields() {
    let mut v = fixed_header(0x80, 96, 100, 5000, 42);
    v.extend_from_slice(&[1, 2]);
    let p = RtpPacket::parse(&v).unwrap();
    let h = p.build_rewrite_header(0x0bad_cafe, -7, 250);
    let mut again = h.as_slice().to_vec();
    again.extend_from_slice(p.payload());
    let q = RtpPacket::parse(&again).unwrap();
    assert_eq!(q.sequence_number, 93);
    assert_eq!(q.timestamp, 5250);
    assert_eq!(q.ssrc, 0x0bad_cafe);
    assert_eq!(q.payload_type, p.payload_type);
    assert_eq!(q.payload(), p.payload());
}

#[test]
fn rewrite_with_own_fields_is_identity() {
    let mut v = fixed_header(0x91, 0x80 | 111, 0xabcd, 0x1234_5678, 0x9abc_def0);
    v.extend_from_slice(&0x0101_0101u32.to_be_bytes());
    v.extend_from_slice(&[0x12, 0x34, 0x00, 0x01, 0x05, 0x07, 0x00, 0x00, 0xee]);
    let p = RtpPacket::parse(&v).unwrap();
    let h = p.build_rewrite_header(p.ssrc, 0, 0);
    assert_eq!(h.as_slice(), p.header_slice());
}

#[test]
fn header_and_payload_cover_packet() {
    let mut v = fixed_header(0x81, 96, 1, 2, 3);
    v.extend_from_slice(&[0, 0, 0, 9, 4, 5, 6]);
    let p = RtpPacket::parse(&v).unwrap();
    let mut joined = p.header_slice().to_vec();
    joined.extend_from_slice(p.payload());
    assert_eq!(joined, v);
    assert!(p.header_slice().len() >= 12);
}

#[test]
fn empty_cache_answers_nothing() {
    let c = PacketCache::new();
    assert!(c.lookup_all(&[0, 1, 511, 512, 65535]).is_empty());
}

#[test]
fn twcc_readers_agree() {
    let mut v = fixed_header(0x90, 96, 1, 1, 7);
    v.extend_from_slice(&[0xBE, 0xDE, 0x00, 0x01, 0x51, 0x0f, 0xa0, 0x00]);
    let p = RtpPacket::parse(&v).unwrap();
    let map = ExtensionMapBuilder::new().with_pairs(vec![(5u8, "transport-wide-cc")]).build();
    assert_eq!(p.twcc_seq(5), Some(0x0fa0));
    assert_eq!(p.get_extension::<TransportCc>(&map), p.twcc_seq(5));
}

#[test]
fn cache_answers_at_most_one_number_per_slot() {
    let mut c = PacketCache::new();
    let a = Arc::new(Bytes::from_static(b"a"));
    for s in 0..1500u16 {
        c.store(s.wrapping_mul(7), a.clone());
    }
    let mut answered = 0usize;
    for q in 0..=u16::MAX {
        if c.lookup(q).is_some() {
            answered += 1;
            assert!(c.lookup(q.wrapping_add(512)).is_none());
        }
    }
    assert!(answered <= 512);
    assert_eq!(answered, 512);
}

#[test]
fn with_pairs_composes_and_is_idempotent() {
    let p = vec![(3u8, "transport-wide-cc"), (4u8, "urn:x")];
    let q = vec![(5u8, "urn:y"), (6u8, "a transport-wide-cc b")];
    let two = ExtensionMapBuilder::new().with_pairs(p.clone()).with_pairs(q.clone()).build();
    let mut joined = p.clone();
    joined.extend(q.clone());
    let one = ExtensionMapBuilder::new().with_pairs(joined).build();
    assert_eq!(two.get_id(ExtensionKind::TransportCc), one.get_id(ExtensionKind::TransportCc));
    assert_eq!(one.get_id(ExtensionKind::TransportCc), Some(6));
    let twice = ExtensionMapBuilder::new().with_pairs(p.clone()).with_pairs(p.clone()).build();
    let once = ExtensionMapBuilder::new().with_pairs(p).build();
    assert_eq!(twice.get_id(ExtensionKind::TransportCc), once.get_id(ExtensionKind::TransportCc));
}

#[test]
fn build_matches_sequence_of_sets() {
    let pairs = vec![(2u8, "transport-wide-cc"), (9u8, "other"), (7u8, "x-transport-wide-cc")];
    let built = ExtensionMapBuilder::new().with_pairs(pairs).build();
    let mut m = ExtensionMap::new();
    m.set(ExtensionKind::TransportCc, 2);
    m.set(ExtensionKind::TransportCc, 7);
    assert_eq!(built.get_id(ExtensionKind::TransportCc), m.get_id(ExtensionKind::TransportCc));
}

#[test]
fn accessors_work_after_unrelated_field_edits() {
    let mut v = fixed_header(0x90, 96, 1, 1, 7);
    v.extend_from_slice(&[0xBE, 0xDE, 0x00, 0x01, 0x31, 0x12, 0x34, 0x00, 0x42]);
    let mut p = RtpPacket::parse(&v).unwrap();
    p.marker = true;
    p.payload_type = 0;
    assert_eq!(p.payload(), &[0x42]);
    assert_eq!(p.header_slice(), &v[..20]);
    assert_eq!(p.twcc_seq(3), Some(0x1234));
}

#[test]
fn cache_packet_stores_under_sequence_number() {
    let mut v = fixed_header(0x80, 96, 700, 1, 7);
    v.push(1);
    let buf = Arc::new(Bytes::from(v));
    let p = RtpPacket::parse(&buf).unwrap();
    let mut c = PacketCache::new();
    sfu_core::router::cache_packet(&mut c, &p, &buf);
    assert!(Arc::ptr_eq(&c.lookup(700).unwrap(), &buf));
    assert!(c.lookup(701).is_none());
}
