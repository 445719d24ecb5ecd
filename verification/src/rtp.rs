use vstd::prelude::*;
use vstd::string::StringSliceAdditionalSpecFns;
use vstd::std_specs::convert::TryFromSpecImpl;
use bytes::Bytes;
use crate::bytes_buf::{bytes_data, bytes_slice};
use crate::inline_vec::{csrc_items, extension_items, header_bytes, CsrcList, ExtensionList, HeaderBuf};

verus! {

/// Errors reported by the RTP header parser.
#[derive(Debug, Clone, Copy, PartialEq, Eq, Structural)]
pub enum Error {
    Truncated,
    InvalidVersion,
    ExtensionOverflow,
}

/// One header extension element: its id and where its data lies in the packet.
#[derive(Clone, Copy, Debug, PartialEq, Eq, Structural)]
pub struct HeaderExtension {
    pub id: u8,
    pub offset: usize,
    pub len: usize,
}

/// The header extensions that the library knows by meaning.
#[derive(Debug, Clone, Copy, PartialEq, Eq, Structural)]
pub enum ExtensionKind {
    TransportCc,
}

/// Slot of an extension kind in an [`ExtensionMap`].
pub open spec fn kind_slot(kind: ExtensionKind) -> int {
    match kind {
        ExtensionKind::TransportCc => 0,
    }
}

fn kind_index(kind: ExtensionKind) -> (r: usize)
    ensures
        r == kind_slot(kind),
        r < 256,
{
    match kind {
        ExtensionKind::TransportCc => 0,
    }
}

/// Negotiated numeric ids of the known header extensions (0 means "not negotiated").
pub struct ExtensionMap {
    ids: [u8; 256],
}

impl ExtensionMap {
    /// The id recorded for `kind` (0 when none is).
    pub closed spec fn id_of(&self, kind: ExtensionKind) -> u8 {
        self.ids@[kind_slot(kind)]
    }

    pub fn new() -> (m: Self)
        ensures
            forall|k: ExtensionKind| #[trigger] m.id_of(k) == 0,
    {
        ExtensionMap { ids: [0u8; 256] }
    }

    pub fn set(&mut self, kind: ExtensionKind, id: u8)
        ensures
            final(self).id_of(kind) == id,
            forall|k: ExtensionKind| k != kind ==> #[trigger] final(self).id_of(k) == old(self).id_of(k),
    {
        let i = kind_index(kind);
        self.ids[i] = id;
    }

    pub fn get_id(&self, kind: ExtensionKind) -> (r: Option<u8>)
        ensures
            r == (if self.id_of(kind) == 0 { None } else { Some(self.id_of(kind)) }),
    {
        let v = self.ids[kind_index(kind)];
        if v == 0 {
            None
        } else {
            Some(v)
        }
    }
}

// ---------------------------------------------------------------------------
// The RTP fixed header, CSRC list and header extension block, as functions of
// the raw bytes.
// ---------------------------------------------------------------------------

/// Big-endian 16-bit value of `b[i..i+2]`.
pub open spec fn be16(b: Seq<u8>, i: int) -> int {
    b[i] as int * 256 + b[i + 1] as int
}

/// Big-endian 32-bit value of `b[i..i+4]`.
pub open spec fn be32(b: Seq<u8>, i: int) -> int {
    be16(b, i) * 65536 + be16(b, i + 2)
}

pub open spec fn rtp_version(raw: Seq<u8>) -> int {
    raw[0] as int / 64
}

pub open spec fn has_padding(raw: Seq<u8>) -> bool {
    (raw[0] as int / 32) % 2 == 1
}

pub open spec fn has_extension(raw: Seq<u8>) -> bool {
    (raw[0] as int / 16) % 2 == 1
}

pub open spec fn csrc_count_of(raw: Seq<u8>) -> int {
    raw[0] as int % 16
}

pub open spec fn marker_bit(raw: Seq<u8>) -> bool {
    raw[1] as int >= 128
}

pub open spec fn payload_type_of(raw: Seq<u8>) -> int {
    raw[1] as int % 128
}

/// End of the CSRC list (start of the extension block, if any).
pub open spec fn csrc_end(raw: Seq<u8>) -> int {
    12 + 4 * csrc_count_of(raw)
}

/// The profile word of the extension block.
pub open spec fn ext_profile(raw: Seq<u8>) -> int {
    be16(raw, csrc_end(raw))
}

/// Total size of the extension block: its 4-byte header and the declared 32-bit words.
pub open spec fn ext_block_len(raw: Seq<u8>) -> int {
    4 + 4 * be16(raw, csrc_end(raw) + 2)
}

/// Where the payload starts.
pub open spec fn header_len(raw: Seq<u8>) -> int {
    if has_extension(raw) {
        csrc_end(raw) + ext_block_len(raw)
    } else {
        csrc_end(raw)
    }
}

/// The error that parsing `raw` reports, or `None` when it succeeds.
pub open spec fn parse_error(raw: Seq<u8>) -> Option<Error> {
    if raw.len() < 12 {
        Some(Error::Truncated)
    } else if rtp_version(raw) != 2 {
        Some(Error::InvalidVersion)
    } else if raw.len() < csrc_end(raw) {
        Some(Error::Truncated)
    } else if has_extension(raw) && raw.len() < csrc_end(raw) + 4 {
        Some(Error::Truncated)
    } else if has_extension(raw) && raw.len() < header_len(raw) {
        Some(Error::ExtensionOverflow)
    } else if has_padding(raw) && (raw.len() == header_len(raw) || raw.last() as int > raw.len()
        - header_len(raw)) {
        Some(Error::Truncated)
    } else {
        None
    }
}

/// The CSRC identifiers listed after the fixed header.
pub open spec fn csrc_list(raw: Seq<u8>) -> Seq<u32> {
    Seq::new(csrc_count_of(raw) as nat, |i: int| be32(raw, 12 + 4 * i) as u32)
}

/// One-byte-header extension elements (profile 0xBEDE) in `raw[off..end]`:
/// zero bytes are padding, an element that would run past `end` ends the list.
pub open spec fn one_byte_elements(raw: Seq<u8>, off: int, end: int) -> Seq<HeaderExtension>
    decreases end - off,
{
    if off >= end {
        Seq::empty()
    } else if raw[off] == 0 {
        one_byte_elements(raw, off + 1, end)
    } else {
        let len = raw[off] as int % 16 + 1;
        if off + 1 + len > end {
            Seq::empty()
        } else {
            seq![HeaderExtension { id: (raw[off] as int / 16) as u8, offset: (off + 1) as usize, len: len as usize }]
                + one_byte_elements(raw, off + 1 + len, end)
        }
    }
}

/// Two-byte-header extension elements in `raw[off..end]`; an element that
/// would run past `end` ends the list.
pub open spec fn two_byte_elements(raw: Seq<u8>, off: int, end: int) -> Seq<HeaderExtension>
    decreases end - off,
{
    if off + 1 >= end {
        Seq::empty()
    } else {
        let len = raw[off + 1] as int;
        if off + 2 + len > end {
            Seq::empty()
        } else {
            seq![HeaderExtension { id: raw[off], offset: (off + 2) as usize, len: len as usize }]
                + two_byte_elements(raw, off + 2 + len, end)
        }
    }
}

/// The extension elements of the header of `raw`.
pub open spec fn extension_list(raw: Seq<u8>) -> Seq<HeaderExtension> {
    if !has_extension(raw) {
        Seq::empty()
    } else if ext_profile(raw) == 0xBEDE {
        one_byte_elements(raw, csrc_end(raw) + 4, header_len(raw))
    } else {
        two_byte_elements(raw, csrc_end(raw) + 4, header_len(raw))
    }
}

proof fn lemma_one_byte_bounds(raw: Seq<u8>, off: int, end: int)
    requires
        0 <= off,
        end <= raw.len() <= usize::MAX,
    ensures
        forall|k: int|
            0 <= k < one_byte_elements(raw, off, end).len() ==> {
                let e = #[trigger] one_byte_elements(raw, off, end)[k];
                off < e.offset && e.offset + e.len <= end
            },
        one_byte_elements(raw, off, end).len() <= if off < end { end - off } else { 0 },
        forall|k: int|
            0 <= k < one_byte_elements(raw, off, end).len() - 1 ==> #[trigger] one_byte_elements(raw, off, end)[k].offset
                + one_byte_elements(raw, off, end)[k].len < one_byte_elements(raw, off, end)[k + 1].offset,
    decreases end - off,
{
    let s = one_byte_elements(raw, off, end);
    if off < end {
        if raw[off] == 0 {
            lemma_one_byte_bounds(raw, off + 1, end);
        } else {
            let len = raw[off] as int % 16 + 1;
            if off + 1 + len <= end {
                let rest = one_byte_elements(raw, off + 1 + len, end);
                lemma_one_byte_bounds(raw, off + 1 + len, end);
                assert forall|k: int| 0 <= k < s.len() implies {
                    let e = #[trigger] s[k];
                    off < e.offset && e.offset + e.len <= end
                } by {
                    if k > 0 {
                        assert(s[k] == rest[k - 1]);
                    }
                }
                assert forall|k: int| 0 <= k < s.len() - 1 implies #[trigger] s[k].offset + s[k].len
                    < s[k + 1].offset by {
                    assert(s[k + 1] == rest[k]);
                    if k > 0 {
                        assert(s[k] == rest[k - 1]);
                    }
                }
            }
        }
    }
}

proof fn lemma_two_byte_bounds(raw: Seq<u8>, off: int, end: int)
    requires
        0 <= off,
        end <= raw.len() <= usize::MAX,
    ensures
        forall|k: int|
            0 <= k < two_byte_elements(raw, off, end).len() ==> {
                let e = #[trigger] two_byte_elements(raw, off, end)[k];
                off < e.offset && e.offset + e.len <= end
            },
        two_byte_elements(raw, off, end).len() <= if off < end { end - off } else { 0 },
        forall|k: int|
            0 <= k < two_byte_elements(raw, off, end).len() - 1 ==> #[trigger] two_byte_elements(raw, off, end)[k].offset
                + two_byte_elements(raw, off, end)[k].len < two_byte_elements(raw, off, end)[k + 1].offset,
    decreases end - off,
{
    let s = two_byte_elements(raw, off, end);
    if off + 1 < end {
        let len = raw[off + 1] as int;
        if off + 2 + len <= end {
            let rest = two_byte_elements(raw, off + 2 + len, end);
            lemma_two_byte_bounds(raw, off + 2 + len, end);
            assert forall|k: int| 0 <= k < s.len() implies {
                let e = #[trigger] s[k];
                off < e.offset && e.offset + e.len <= end
            } by {
                if k > 0 {
                    assert(s[k] == rest[k - 1]);
                }
            }
            assert forall|k: int| 0 <= k < s.len() - 1 implies #[trigger] s[k].offset + s[k].len < s[k
                + 1].offset by {
                assert(s[k + 1] == rest[k]);
                if k > 0 {
                    assert(s[k] == rest[k - 1]);
                }
            }
        }
    }
}

/// Every extension element that parsing records lies inside the header.
pub proof fn law_extensions_lie_in_header(raw: Seq<u8>)
    requires
        parse_error(raw) is None,
        raw.len() <= usize::MAX,
    ensures
        forall|k: int|
            0 <= k < extension_list(raw).len() ==> #[trigger] extension_list(raw)[k].offset
                + extension_list(raw)[k].len <= header_len(raw),
        header_len(raw) <= raw.len(),
{
    if has_extension(raw) {
        if ext_profile(raw) == 0xBEDE {
            lemma_one_byte_bounds(raw, csrc_end(raw) + 4, header_len(raw));
        } else {
            lemma_two_byte_bounds(raw, csrc_end(raw) + 4, header_len(raw));
        }
    }
}

/// The extension elements of a parsed packet: none without the extension
/// bit; otherwise each starts after the 4-byte block header and ends inside
/// the header, and each ends before the next one starts.
pub proof fn law_extensions_in_order(raw: Seq<u8>)
    requires
        parse_error(raw) is None,
        raw.len() <= usize::MAX,
    ensures
        !has_extension(raw) ==> extension_list(raw).len() == 0,
        header_len(raw) <= raw.len(),
        forall|k: int|
            0 <= k < extension_list(raw).len() ==> {
                let e = #[trigger] extension_list(raw)[k];
                csrc_end(raw) + 4 < e.offset && e.offset + e.len <= header_len(raw)
            },
        forall|k: int|
            0 <= k < extension_list(raw).len() - 1 ==> #[trigger] extension_list(raw)[k].offset
                + extension_list(raw)[k].len < extension_list(raw)[k + 1].offset,
{
    if has_extension(raw) {
        if ext_profile(raw) == 0xBEDE {
            lemma_one_byte_bounds(raw, csrc_end(raw) + 4, header_len(raw));
        } else {
            lemma_two_byte_bounds(raw, csrc_end(raw) + 4, header_len(raw));
        }
    }
}

/// A successfully parsed packet is its header followed by its payload, with
/// nothing left over, and the header holds at least the 12-byte fixed header.
pub proof fn law_header_and_payload_cover_packet(raw: Seq<u8>)
    requires
        parse_error(raw) is None,
    ensures
        12 <= header_len(raw) <= raw.len(),
        raw.subrange(0, header_len(raw)) + raw.subrange(header_len(raw), raw.len() as int) == raw,
{
    assert(raw.subrange(0, header_len(raw)) + raw.subrange(header_len(raw), raw.len() as int) =~= raw);
}

fn read_be16(raw: &[u8], i: usize) -> (r: u16)
    requires
        i + 2 <= raw.len(),
    ensures
        r as int == be16(raw@, i as int),
{
    let hi = raw[i];
    let lo = raw[i + 1];
    let r = ((hi as u16) << 8) | (lo as u16);
    assert(r == hi as int * 256 + lo as int) by (bit_vector)
        requires
            r == ((hi as u16) << 8) | (lo as u16),
    ;
    r
}

fn read_be32(raw: &[u8], i: usize) -> (r: u32)
    requires
        i + 4 <= raw.len(),
    ensures
        r as int == be32(raw@, i as int),
{
    let hi = read_be16(raw, i);
    let lo = read_be16(raw, i + 2);
    let r = ((hi as u32) << 16) | (lo as u32);
    assert(r == hi as int * 65536 + lo as int) by (bit_vector)
        requires
            r == ((hi as u32) << 16) | (lo as u32),
    ;
    r
}

/// A parsed RTP packet: header fields, CSRCs and extension records, all
/// referring back into the raw bytes, which are not copied.
pub struct RtpPacket<'a> {
    /// The bytes the packet was parsed from.
    pub raw: &'a [u8],
    pub version: u8,
    pub padding: bool,
    pub extension: bool,
    pub csrc_count: u8,
    pub marker: bool,
    pub payload_type: u8,
    pub sequence_number: u16,
    pub timestamp: u32,
    pub ssrc: u32,
    pub csrcs: CsrcList,
    pub payload_offset: usize,
    pub payload_len: usize,
    pub extensions: ExtensionList,
}

impl<'a> RtpPacket<'a> {
    /// The bytes the packet was parsed from.
    pub open spec fn raw_bytes(&self) -> Seq<u8> {
        self.raw@
    }

    /// The packet's fields are those that parsing `raw` gives.
    pub open spec fn describes(&self, raw: Seq<u8>) -> bool {
        &&& self.raw_bytes() == raw
        &&& parse_error(raw) is None
        &&& self.version as int == rtp_version(raw)
        &&& self.padding == has_padding(raw)
        &&& self.extension == has_extension(raw)
        &&& self.csrc_count as int == csrc_count_of(raw)
        &&& self.marker == marker_bit(raw)
        &&& self.payload_type as int == payload_type_of(raw)
        &&& self.sequence_number as int == be16(raw, 2)
        &&& self.timestamp as int == be32(raw, 4)
        &&& self.ssrc as int == be32(raw, 8)
        &&& csrc_items(self.csrcs) == csrc_list(raw)
        &&& self.payload_offset as int == header_len(raw)
        &&& self.payload_len as int == raw.len() - header_len(raw)
        &&& extension_items(self.extensions) == extension_list(raw)
    }

    /// Well-formed: the fields are still those that parsing produced.
    pub open spec fn wf(&self) -> bool {
        self.describes(self.raw_bytes())
    }

    /// Parses the RTP header of `raw` without copying it.
    pub fn parse(raw: &'a [u8]) -> (r: Result<RtpPacket<'a>, Error>)
        ensures
            match r {
                Ok(p) => p.describes(raw@),
                Err(e) => parse_error(raw@) == Some(e),
            },
            r matches Ok(p) ==> p.marker == (raw@[1] >= 128) && p.payload_type as int == raw@[1] as int
                % 128 && p.version == 2,
    {
        if raw.len() < 12 {
            return Err(Error::Truncated);
        }
        let v_p_x_cc = raw[0];
        let version = v_p_x_cc >> 6;
        let padding = (v_p_x_cc & 0x20) != 0;
        let extension = (v_p_x_cc & 0x10) != 0;
        let csrc_count = v_p_x_cc & 0x0f;
        let m_pt = raw[1];
        let marker = (m_pt & 0x80) != 0;
        let payload_type = m_pt & 0x7f;
        assert(version as int == v_p_x_cc as int / 64 && padding == ((v_p_x_cc as int / 32) % 2 == 1)
            && extension == ((v_p_x_cc as int / 16) % 2 == 1) && csrc_count as int == v_p_x_cc as int % 16
            && marker == (m_pt as int >= 128) && payload_type as int == m_pt as int % 128) by (bit_vector)
            requires
                version == v_p_x_cc >> 6,
                padding == ((v_p_x_cc & 0x20) != 0),
                extension == ((v_p_x_cc & 0x10) != 0),
                csrc_count == v_p_x_cc & 0x0f,
                marker == ((m_pt & 0x80) != 0),
                payload_type == m_pt & 0x7f,
        ;
        if version != 2 {
            return Err(Error::InvalidVersion);
        }
        let sequence_number = read_be16(raw, 2);
        let timestamp = read_be32(raw, 4);
        let ssrc = read_be32(raw, 8);
        let mut offset: usize = 12;
        let mut csrcs = CsrcList::new();
        let mut n: u8 = 0;
        while n < csrc_count
            invariant
                raw@.len() >= 12,
                rtp_version(raw@) == 2,
                csrc_count as int == csrc_count_of(raw@),
                n <= csrc_count,
                offset == 12 + 4 * n,
                offset <= raw@.len(),
                csrc_items(csrcs) == csrc_list(raw@).take(n as int),
            decreases csrc_count - n,
        {
            if raw.len() < offset + 4 {
                return Err(Error::Truncated);
            }
            let c = read_be32(raw, offset);
            csrcs.push(c);
            assert(csrc_list(raw@).take(n + 1) == csrc_list(raw@).take(n as int).push(c));
            offset = offset + 4;
            n = n + 1;
        }
        assert(csrc_list(raw@).take(n as int) == csrc_list(raw@));
        let mut extensions = ExtensionList::new();
        if extension {
            if raw.len() - offset < 4 {
                return Err(Error::Truncated);
            }
            let profile = read_be16(raw, offset);
            let ext_len_words = read_be16(raw, offset + 2) as usize;
            let ext_total = 4 + ext_len_words * 4;
            if raw.len() - offset < ext_total {
                return Err(Error::ExtensionOverflow);
            }
            let start = offset + 4;
            let ext_end = offset + ext_total;
            let mut ext_off = start;
            if profile == 0xBEDE {
                proof {
                    lemma_one_byte_bounds(raw@, start as int, ext_end as int);
                }
                while ext_off < ext_end
                    invariant
                        ext_end <= raw@.len(),
                        start <= ext_off <= ext_end,
                        ext_end - start <= 0x4_0000,
                        extension_items(extensions).len() <= ext_off - start,
                        extension_items(extensions) + one_byte_elements(raw@, ext_off as int, ext_end as int)
                            == one_byte_elements(raw@, start as int, ext_end as int),
                    decreases ext_end - ext_off,
                {
                    let b = raw[ext_off];
                    if b == 0 {
                        ext_off = ext_off + 1;
                    } else {
                        let id = b >> 4;
                        let len = (b & 0x0f) as usize + 1;
                        assert(id as int == b as int / 16 && (b & 0x0f) as int == b as int % 16) by (bit_vector)
                            requires
                                id == b >> 4,
                        ;
                        if len > ext_end - (ext_off + 1) {
                            ext_off = ext_end;
                        } else {
                            let e = HeaderExtension { id, offset: ext_off + 1, len };
                            extensions.push(e);
                            ext_off = ext_off + 1 + len;
                        }
                    }
                }
            } else {
                proof {
                    lemma_two_byte_bounds(raw@, start as int, ext_end as int);
                }
                while ext_off < ext_end
                    invariant
                        ext_end <= raw@.len(),
                        start <= ext_off <= ext_end,
                        ext_end - start <= 0x4_0000,
                        extension_items(extensions).len() <= ext_off - start,
                        extension_items(extensions) + two_byte_elements(raw@, ext_off as int, ext_end as int)
                            == two_byte_elements(raw@, start as int, ext_end as int),
                    decreases ext_end - ext_off,
                {
                    if ext_off + 1 >= ext_end {
                        ext_off = ext_end;
                    } else {
                        let id = raw[ext_off];
                        let len = raw[ext_off + 1] as usize;
                        if len > ext_end - (ext_off + 2) {
                            ext_off = ext_end;
                        } else {
                            let e = HeaderExtension { id, offset: ext_off + 2, len };
                            extensions.push(e);
                            ext_off = ext_off + 2 + len;
                        }
                    }
                }
            }
            offset = offset + ext_total;
        }
        let payload_len = raw.len() - offset;
        if padding {
            if payload_len == 0 {
                return Err(Error::Truncated);
            }
            let pad = raw[raw.len() - 1] as usize;
            if pad > payload_len {
                return Err(Error::Truncated);
            }
        }
        Ok(RtpPacket {
            raw,
            version,
            padding,
            extension,
            csrc_count,
            marker,
            payload_type,
            sequence_number,
            timestamp,
            ssrc,
            csrcs,
            payload_offset: offset,
            payload_len,
            extensions,
        })
    }
}

/// The fixed header of a parsed packet, read straight from its bytes: the
/// version is the top two bits of byte 0, padding bit 5, the extension flag
/// bit 4 and the CSRC count its low four bits; the marker is the top bit of
/// byte 1 and the payload type its low seven bits; bytes 2..4, 4..8 and
/// 8..12 hold the sequence number, timestamp and SSRC, most significant
/// byte first; each CSRC is the next four bytes; and the header and payload
/// lengths add up to the packet's.
pub proof fn law_parsed_fields_from_bytes(p: RtpPacket, raw: Seq<u8>)
    requires
        p.describes(raw),
    ensures
        raw.len() >= 12,
        p.version as int == raw[0] as int / 64,
        p.version == 2,
        p.padding <==> raw[0] as int % 64 >= 32,
        p.extension <==> raw[0] as int % 32 >= 16,
        p.csrc_count as int == raw[0] as int % 16,
        p.marker <==> raw[1] as int >= 128,
        p.payload_type as int == raw[1] as int - (if raw[1] as int >= 128 { 128int } else { 0int }),
        p.payload_type as int == raw[1] as int % 128,
        p.sequence_number as int == raw[2] as int * 0x100 + raw[3] as int,
        p.timestamp as int == raw[4] as int * 0x100_0000 + raw[5] as int * 0x1_0000 + raw[6] as int
            * 0x100 + raw[7] as int,
        p.ssrc as int == raw[8] as int * 0x100_0000 + raw[9] as int * 0x1_0000 + raw[10] as int
            * 0x100 + raw[11] as int,
        csrc_items(p.csrcs).len() == p.csrc_count,
        forall|i: int|
            0 <= i < p.csrc_count ==> {
                let b = 12 + 4 * i;
                #[trigger] csrc_items(p.csrcs)[i] as int == raw[b] as int * 0x100_0000 + raw[b + 1] as int
                    * 0x1_0000 + raw[b + 2] as int * 0x100 + raw[b + 3] as int
            },
        p.payload_offset >= 12 + 4 * p.csrc_count,
        p.payload_offset + p.payload_len == raw.len(),
{
    assert forall|i: int| 0 <= i < p.csrc_count implies {
        let b = 12 + 4 * i;
        #[trigger] csrc_items(p.csrcs)[i] as int == raw[b] as int * 0x100_0000 + raw[b + 1] as int
            * 0x1_0000 + raw[b + 2] as int * 0x100 + raw[b + 3] as int
    } by {
        assert(csrc_items(p.csrcs)[i] == csrc_list(raw)[i]);
    }
}

/// The first record in `exts` with id `id` and at least `min_len` data bytes.
pub open spec fn find_extension(exts: Seq<HeaderExtension>, id: u8, min_len: int) -> Option<HeaderExtension>
    decreases exts.len(),
{
    if exts.len() == 0 {
        None
    } else if exts[0].id == id && exts[0].len >= min_len {
        Some(exts[0])
    } else {
        find_extension(exts.drop_first(), id, min_len)
    }
}

/// `b` with `b[i..i+2]` replaced by the big-endian bytes of `v` (0 <= v < 2^16).
pub open spec fn put_be16(b: Seq<u8>, i: int, v: int) -> Seq<u8> {
    b.update(i, (v / 256) as u8).update(i + 1, (v % 256) as u8)
}

/// `b` with `b[i..i+4]` replaced by the big-endian bytes of `v` (0 <= v < 2^32).
pub open spec fn put_be32(b: Seq<u8>, i: int, v: int) -> Seq<u8> {
    put_be16(put_be16(b, i, v / 65536), i + 2, v % 65536)
}

/// `header` with its sequence number, timestamp and SSRC fields replaced.
pub open spec fn rewritten_header(header: Seq<u8>, seq: int, ts: int, ssrc: int) -> Seq<u8> {
    put_be32(put_be32(put_be16(header, 2, seq), 4, ts), 8, ssrc)
}

/// Rewriting a header keeps its length, leaves every byte outside the
/// sequence-number, timestamp and SSRC fields as it was, and a reader of the
/// result finds exactly the new sequence number, timestamp and SSRC.
#[verifier::spinoff_prover]
pub proof fn law_rewrite_reads_back(header: Seq<u8>, seq: int, ts: int, ssrc: int)
    requires
        header.len() >= 12,
        0 <= seq < 0x1_0000,
        0 <= ts < 0x1_0000_0000,
        0 <= ssrc < 0x1_0000_0000,
    ensures
        ({
            let r = rewritten_header(header, seq, ts, ssrc);
            &&& r.len() == header.len()
            &&& be16(r, 2) == seq
            &&& be32(r, 4) == ts
            &&& be32(r, 8) == ssrc
            &&& forall|i: int| 0 <= i < header.len() && !(2 <= i < 12) ==> #[trigger] r[i] == header[i]
        }),
{
    assert((ts / 65536) * 65536 + ts % 65536 == ts) by (nonlinear_arith);
    assert((ssrc / 65536) * 65536 + ssrc % 65536 == ssrc) by (nonlinear_arith);
}

proof fn lemma_one_byte_elements_local(raw: Seq<u8>, raw2: Seq<u8>, off: int, end: int)
    requires
        0 <= off,
        forall|i: int| off <= i < end ==> #[trigger] raw[i] == raw2[i],
    ensures
        one_byte_elements(raw, off, end) == one_byte_elements(raw2, off, end),
    decreases end - off,
{
    if off < end {
        if raw[off] == 0 {
            lemma_one_byte_elements_local(raw, raw2, off + 1, end);
        } else {
            let len = raw[off] as int % 16 + 1;
            if off + 1 + len <= end {
                lemma_one_byte_elements_local(raw, raw2, off + 1 + len, end);
            }
        }
    }
}

proof fn lemma_two_byte_elements_local(raw: Seq<u8>, raw2: Seq<u8>, off: int, end: int)
    requires
        0 <= off,
        forall|i: int| off <= i < end ==> #[trigger] raw[i] == raw2[i],
    ensures
        two_byte_elements(raw, off, end) == two_byte_elements(raw2, off, end),
    decreases end - off,
{
    if off + 1 < end {
        assert(raw[off + 1] == raw2[off + 1]);
        let len = raw[off + 1] as int;
        if off + 2 + len <= end {
            assert(raw[off] == raw2[off]);
            lemma_two_byte_elements_local(raw, raw2, off + 2 + len, end);
        }
    }
}

/// The packet `raw` with its header rewritten to carry `seq`, `ts` and `ssrc`,
/// followed by its payload: what a rewritten header sent with the shared
/// payload makes on the wire.
pub open spec fn rewritten_packet(raw: Seq<u8>, seq: int, ts: int, ssrc: int) -> Seq<u8> {
    rewritten_header(raw.subrange(0, header_len(raw)), seq, ts, ssrc) + raw.subrange(
        header_len(raw),
        raw.len() as int,
    )
}

/// Parsing a packet whose header was rewritten succeeds again and gives the
/// new sequence number, timestamp and SSRC, with every other field (version,
/// padding, extension bit, CSRC count and list, marker, payload type, header
/// length, payload length and extension elements) as before.
#[verifier::spinoff_prover]
pub proof fn law_reparse_rewritten(raw: Seq<u8>, seq: int, ts: int, ssrc: int)
    requires
        parse_error(raw) is None,
        0 <= seq < 0x1_0000,
        0 <= ts < 0x1_0000_0000,
        0 <= ssrc < 0x1_0000_0000,
    ensures
        ({
            let raw2 = rewritten_packet(raw, seq, ts, ssrc);
            &&& parse_error(raw2) is None
            &&& raw2.len() == raw.len()
            &&& be16(raw2, 2) == seq
            &&& be32(raw2, 4) == ts
            &&& be32(raw2, 8) == ssrc
            &&& rtp_version(raw2) == rtp_version(raw)
            &&& has_padding(raw2) == has_padding(raw)
            &&& has_extension(raw2) == has_extension(raw)
            &&& csrc_count_of(raw2) == csrc_count_of(raw)
            &&& marker_bit(raw2) == marker_bit(raw)
            &&& payload_type_of(raw2) == payload_type_of(raw)
            &&& csrc_list(raw2) == csrc_list(raw)
            &&& header_len(raw2) == header_len(raw)
            &&& extension_list(raw2) == extension_list(raw)
        }),
{
    let hl = header_len(raw);
    let h = raw.subrange(0, hl);
    let h2 = rewritten_header(h, seq, ts, ssrc);
    law_rewrite_reads_back(h, seq, ts, ssrc);
    let raw2 = rewritten_packet(raw, seq, ts, ssrc);
    assert(raw2.len() == raw.len());
    assert forall|i: int| 0 <= i < raw.len() && !(2 <= i < 12) implies #[trigger] raw2[i] == raw[i] by {
        if i < hl {
            assert(h2[i] == h[i]);
        }
    }
    assert(be16(raw2, 2) == be16(h2, 2));
    assert(be32(raw2, 4) == be32(h2, 4));
    assert(be32(raw2, 8) == be32(h2, 8));
    assert(raw2[0] == raw[0] && raw2[1] == raw[1]);
    let ce = csrc_end(raw);
    if has_extension(raw) {
        assert(raw2[ce] == raw[ce] && raw2[ce + 1] == raw[ce + 1]);
        assert(raw2[ce + 2] == raw[ce + 2] && raw2[ce + 3] == raw[ce + 3]);
    }
    assert(csrc_end(raw2) == ce);
    assert(header_len(raw2) == hl);
    assert forall|i: int| 0 <= i < csrc_count_of(raw) implies #[trigger] csrc_list(raw2)[i] == csrc_list(
        raw,
    )[i] by {
        let b = 12 + 4 * i;
        assert(raw2[b] == raw[b] && raw2[b + 1] == raw[b + 1] && raw2[b + 2] == raw[b + 2] && raw2[b
            + 3] == raw[b + 3]);
    }
    assert(csrc_list(raw2) =~= csrc_list(raw));
    if has_extension(raw) {
        assert forall|i: int| ce + 4 <= i < hl implies #[trigger] raw[i] == raw2[i] by {
            assert(raw2[i] == raw[i]);
        }
        if ext_profile(raw) == 0xBEDE {
            lemma_one_byte_elements_local(raw, raw2, ce + 4, hl);
        } else {
            lemma_two_byte_elements_local(raw, raw2, ce + 4, hl);
        }
    }
    if has_padding(raw) {
        assert(raw.len() > hl);
        assert(raw2.last() == raw.last());
    }
}

/// Rewriting a header with the values it already carries gives it back unchanged.
#[verifier::spinoff_prover]
pub proof fn law_rewrite_with_own_fields_is_identity(header: Seq<u8>)
    requires
        header.len() >= 12,
    ensures
        rewritten_header(header, be16(header, 2), be32(header, 4), be32(header, 8)) == header,
{
    let (seq, ts, ssrc) = (be16(header, 2), be32(header, 4), be32(header, 8));
    assert(seq / 256 == header[2] as int && seq % 256 == header[3] as int);
    assert(ts / 65536 == be16(header, 4) && ts % 65536 == be16(header, 6));
    assert(ssrc / 65536 == be16(header, 8) && ssrc % 65536 == be16(header, 10));
    assert(be16(header, 4) / 256 == header[4] as int && be16(header, 4) % 256 == header[5] as int);
    assert(be16(header, 6) / 256 == header[6] as int && be16(header, 6) % 256 == header[7] as int);
    assert(be16(header, 8) / 256 == header[8] as int && be16(header, 8) % 256 == header[9] as int);
    assert(be16(header, 10) / 256 == header[10] as int && be16(header, 10) % 256 == header[11] as int);
    assert(rewritten_header(header, seq, ts, ssrc) =~= header);
}

proof fn lemma_low16_i32(w: i32)
    ensures
        (w & 0xffffi32) as int == (w as int) % 65536,
{
    assert((w & 0xffffi32) == ((w as u32) & 0xffffu32) as i32) by (bit_vector);
    assert(((w as u32) & 0xffffu32) == (w as u32) % 65536) by (bit_vector);
    assert((w as u32) as int == if w < 0 { w as int + 0x1_0000_0000 } else { w as int }) by (bit_vector);
    assert((w as int) % 65536 == ((w as int) + 0x1_0000_0000) % 65536) by (nonlinear_arith);
}

proof fn lemma_low32_i64(w: i64)
    ensures
        (w & 0xffffffffi64) as int == (w as int) % 0x1_0000_0000,
{
    assert((w & 0xffffffffi64) == ((w as u64) & 0xffffffffu64) as i64) by (bit_vector);
    assert(((w as u64) & 0xffffffffu64) == (w as u64) % 0x1_0000_0000) by (bit_vector);
    assert((w as u64) as int == if w < 0 { w as int + 0x1_0000_0000_0000_0000 } else { w as int })
        by (bit_vector);
    assert((w as int) % 0x1_0000_0000 == ((w as int) + 0x1_0000_0000_0000_0000) % 0x1_0000_0000)
        by (nonlinear_arith);
}

fn wrapped_seq(seq: u16, delta: i32) -> (r: u16)
    ensures
        r as int == (seq as int + delta as int) % 65536,
{
    let w = (seq as i32).wrapping_add(delta);
    let m = w & 0xffff;
    proof {
        lemma_low16_i32(w);
        let s = seq as int + delta as int;
        assert(w as int == s || w as int == s - 0x1_0000_0000 || w as int == s + 0x1_0000_0000);
        assert((s - 0x1_0000_0000) % 65536 == s % 65536) by (nonlinear_arith);
        assert((s + 0x1_0000_0000) % 65536 == s % 65536) by (nonlinear_arith);
    }
    m as u16
}

fn wrapped_ts(ts: u32, delta: i64) -> (r: u32)
    ensures
        r as int == (ts as int + delta as int) % 0x1_0000_0000,
{
    let w = (ts as i64).wrapping_add(delta);
    let m = w & 0xffffffff;
    proof {
        lemma_low32_i64(w);
        let s = ts as int + delta as int;
        assert(w as int == s || w as int == s - 0x1_0000_0000_0000_0000 || w as int == s
            + 0x1_0000_0000_0000_0000);
        assert((s - 0x1_0000_0000_0000_0000) % 0x1_0000_0000 == s % 0x1_0000_0000) by (nonlinear_arith);
        assert((s + 0x1_0000_0000_0000_0000) % 0x1_0000_0000 == s % 0x1_0000_0000) by (nonlinear_arith);
    }
    m as u32
}

fn write_be16(out: &mut HeaderBuf, i: usize, v: u16)
    requires
        i <= 10,
        i + 2 <= header_bytes(*old(out)).len(),
    ensures
        header_bytes(*final(out)) == put_be16(header_bytes(*old(out)), i as int, v as int),
{
    out.set(i, (v / 256) as u8);
    out.set(i + 1, (v % 256) as u8);
}

fn write_be32(out: &mut HeaderBuf, i: usize, v: u32)
    requires
        i <= 8,
        i + 4 <= header_bytes(*old(out)).len(),
    ensures
        header_bytes(*final(out)) == put_be32(header_bytes(*old(out)), i as int, v as int),
{
    write_be16(out, i, (v / 65536) as u16);
    write_be16(out, i + 2, (v % 65536) as u16);
}

/// An extension whose data the library can decode.
pub trait ExtensionType {
    type Output;

    const KIND: ExtensionKind;

    /// What decoding the extension data `raw` gives.
    spec fn spec_parse(raw: Seq<u8>) -> Option<Self::Output>;

    fn parse(raw: &[u8]) -> (r: Option<Self::Output>)
        ensures
            r == Self::spec_parse(raw@),
    ;
}

/// The transport-wide congestion-control sequence number extension.
pub struct TransportCc;

impl ExtensionType for TransportCc {
    type Output = u16;

    const KIND: ExtensionKind = ExtensionKind::TransportCc;

    open spec fn spec_parse(raw: Seq<u8>) -> Option<u16> {
        if raw.len() < 2 {
            None
        } else {
            Some(be16(raw, 0) as u16)
        }
    }

    fn parse(raw: &[u8]) -> (r: Option<u16>) {
        if raw.len() < 2 {
            return None;
        }
        Some(read_be16(raw, 0))
    }
}

/// Reading the transport-wide CC number by extension id (`twcc_seq`) and
/// through the extension map (`get_extension::<TransportCc>`) agree whenever
/// the first element with that id carries at least two bytes.
pub proof fn law_twcc_readers_agree(exts: Seq<HeaderExtension>, raw: Seq<u8>, id: u8)
    requires
        find_extension(exts, id, 0) matches Some(e) && e.len >= 2 && e.offset + e.len <= raw.len(),
    ensures
        ({
            let e = find_extension(exts, id, 0)->0;
            &&& find_extension(exts, id, 2) == Some(e)
            &&& TransportCc::spec_parse(raw.subrange(e.offset as int, e.offset + e.len)) == Some(
                be16(raw, e.offset as int) as u16,
            )
        }),
    decreases exts.len(),
{
    if exts.len() > 0 && exts[0].id != id {
        law_twcc_readers_agree(exts.drop_first(), raw, id);
    }
}

/// The record that a lookup for `id` with at least `min_len` data bytes finds
/// in `exts` is one of them.
pub proof fn lemma_find_extension_in(exts: Seq<HeaderExtension>, id: u8, min_len: int)
    ensures
        find_extension(exts, id, min_len) matches Some(e) ==> exists|k: int|
            0 <= k < exts.len() && #[trigger] exts[k] == e && e.id == id && e.len >= min_len,
    decreases exts.len(),
{
    if exts.len() > 0 {
        if exts[0].id == id && exts[0].len >= min_len {
            assert(exts[0] == exts[0]);
        } else {
            lemma_find_extension_in(exts.drop_first(), id, min_len);
            if let Some(e) = find_extension(exts, id, min_len) {
                let k = choose|k: int| 0 <= k < exts.drop_first().len() && #[trigger] exts.drop_first()[k] == e;
                assert(exts[k + 1] == e);
            }
        }
    }
}

/// The first record of a parsed packet that a lookup finds lies inside the
/// header.
pub proof fn lemma_found_extension_in_header(raw: Seq<u8>, id: u8, min_len: int)
    requires
        parse_error(raw) is None,
        raw.len() <= usize::MAX,
    ensures
        find_extension(extension_list(raw), id, min_len) matches Some(e) ==> e.offset + e.len
            <= header_len(raw) <= raw.len(),
{
    law_extensions_lie_in_header(raw);
    lemma_find_extension_in(extension_list(raw), id, min_len);
}

impl<'a> RtpPacket<'a> {
    /// The payload bytes (padding included).
    pub fn payload(&self) -> (r: &'a [u8])
        requires
            self.payload_offset + self.payload_len <= self.raw_bytes().len(),
        ensures
            r@ == self.raw_bytes().subrange(
                self.payload_offset as int,
                self.payload_offset + self.payload_len,
            ),
    {
        assert(self.raw@.len() == self.raw.len());
        &self.raw[self.payload_offset..self.payload_offset + self.payload_len]
    }

    /// The header bytes: fixed header, CSRCs and extension block.
    pub fn header_slice(&self) -> (r: &'a [u8])
        requires
            self.payload_offset <= self.raw_bytes().len(),
        ensures
            r@ == self.raw_bytes().subrange(0, self.payload_offset as int),
    {
        &self.raw[0..self.payload_offset]
    }

    /// The transport-wide CC sequence number carried by the first extension
    /// element with id `ext_id` that has at least two data bytes.
    pub fn twcc_seq(&self, ext_id: u8) -> (r: Option<u16>)
        requires
            find_extension(extension_items(self.extensions), ext_id, 2) matches Some(e) ==> e.offset + 2
                <= self.raw_bytes().len(),
        ensures
            r == (match find_extension(extension_items(self.extensions), ext_id, 2) {
                Some(e) => Some(be16(self.raw_bytes(), e.offset as int) as u16),
                None => None,
            }),
    {
        let exts = self.extensions.as_slice();
        assert(exts@.skip(0) == exts@);
        let mut i: usize = 0;
        while i < exts.len()
            invariant
                exts@ == extension_items(self.extensions),
                i <= exts@.len(),
                find_extension(exts@, ext_id, 2) matches Some(e) ==> e.offset + 2 <= self.raw@.len(),
                find_extension(exts@, ext_id, 2) == find_extension(exts@.skip(i as int), ext_id, 2),
            decreases exts@.len() - i,
        {
            let ext = exts[i];
            assert(exts@.skip(i as int)[0] == ext);
            if ext.id == ext_id && ext.len >= 2 {
                return Some(read_be16(self.raw, ext.offset));
            }
            assert(exts@.skip(i as int).drop_first() == exts@.skip(i + 1));
            i = i + 1;
        }
        None
    }

    /// The data of the first extension element with id `id`.
    pub fn get_extension_by_id(&self, id: u8) -> (r: Option<&'a [u8]>)
        requires
            find_extension(extension_items(self.extensions), id, 0) matches Some(e) ==> e.offset + e.len
                <= self.raw_bytes().len(),
        ensures
            match find_extension(extension_items(self.extensions), id, 0) {
                Some(e) => r matches Some(s) && s@ == self.raw_bytes().subrange(
                    e.offset as int,
                    e.offset + e.len,
                ),
                None => r is None,
            },
    {
        let exts = self.extensions.as_slice();
        assert(exts@.skip(0) == exts@);
        assert(self.raw@.len() == self.raw.len());
        let mut i: usize = 0;
        while i < exts.len()
            invariant
                exts@ == extension_items(self.extensions),
                i <= exts@.len(),
                self.raw@.len() <= usize::MAX,
                find_extension(exts@, id, 0) matches Some(e) ==> e.offset + e.len <= self.raw@.len(),
                find_extension(exts@, id, 0) == find_extension(exts@.skip(i as int), id, 0),
            decreases exts@.len() - i,
        {
            let ext = exts[i];
            assert(exts@.skip(i as int)[0] == ext);
            if ext.id == id {
                return Some(&self.raw[ext.offset..ext.offset + ext.len]);
            }
            assert(exts@.skip(i as int).drop_first() == exts@.skip(i + 1));
            i = i + 1;
        }
        None
    }

    /// Decodes the extension of type `T`, when `map` gives it an id and the
    /// packet carries an element with that id.
    pub fn get_extension<T: ExtensionType>(&self, map: &ExtensionMap) -> (r: Option<T::Output>)
        requires
            map.id_of(T::KIND) != 0 ==> (find_extension(
                extension_items(self.extensions),
                map.id_of(T::KIND),
                0,
            ) matches Some(e) ==> e.offset + e.len <= self.raw_bytes().len()),
        ensures
            r == (if map.id_of(T::KIND) == 0 {
                None
            } else {
                match find_extension(extension_items(self.extensions), map.id_of(T::KIND), 0) {
                    Some(e) => T::spec_parse(self.raw_bytes().subrange(e.offset as int, e.offset + e.len)),
                    None => None,
                }
            }),
    {
        let id = match map.get_id(T::KIND) {
            Some(id) => id,
            None => return None,
        };
        let slice = match self.get_extension_by_id(id) {
            Some(s) => s,
            None => return None,
        };
        T::parse(slice)
    }

    /// A copy of the header with the SSRC replaced by `new_ssrc` and the
    /// sequence number and timestamp moved by the given deltas (modulo 2^16
    /// and 2^32).
    pub fn build_rewrite_header(&self, new_ssrc: u32, seq_delta: i32, ts_delta: i64) -> (r: HeaderBuf)
        requires
            12 <= self.payload_offset <= self.raw_bytes().len(),
            self.payload_offset <= usize::MAX / 4 + 1,
        ensures
            header_bytes(r) == rewritten_header(
                self.raw_bytes().subrange(0, self.payload_offset as int),
                (self.sequence_number as int + seq_delta as int) % 65536,
                (self.timestamp as int + ts_delta as int) % 0x1_0000_0000,
                new_ssrc as int,
            ),
    {
        let mut out = HeaderBuf::new();
        out.extend_from_slice(&self.raw[0..self.payload_offset]);
        let seq_off = 2usize;
        let ts_off = 4usize;
        let ssrc_off = 8usize;
        let new_seq = wrapped_seq(self.sequence_number, seq_delta);
        let new_ts = wrapped_ts(self.timestamp, ts_delta);
        write_be16(&mut out, seq_off, new_seq);
        write_be32(&mut out, ts_off, new_ts);
        write_be32(&mut out, ssrc_off, new_ssrc);
        out
    }

    /// The bytes the packet was parsed from.
    pub fn into_bytes(self) -> (r: &'a [u8])
        ensures
            r@ == self.raw_bytes(),
    {
        self.raw
    }
}

/// `needle` occurs as a contiguous run of bytes in `hay`.
pub open spec fn is_substring(hay: Seq<u8>, needle: Seq<u8>) -> bool {
    exists|i: int| 0 <= i && i + needle.len() <= hay.len() && #[trigger] hay.subrange(i, i + needle.len()) == needle
}

/// Whether `needle` occurs in `hay`.
fn contains_bytes(hay: &[u8], needle: &[u8]) -> (r: bool)
    ensures
        r == is_substring(hay@, needle@),
{
    if needle.len() > hay.len() {
        return false;
    }
    let last = hay.len() - needle.len();
    let mut i: usize = 0;
    loop
        invariant
            hay@.len() <= usize::MAX,
            last == hay@.len() - needle@.len(),
            i <= last,
            forall|k: int| 0 <= k < i ==> #[trigger] hay@.subrange(k, k + needle@.len()) != needle@,
        decreases last - i,
    {
        let mut j: usize = 0;
        let mut same = true;
        assert(hay@.subrange(i as int, i as int) == needle@.subrange(0, 0));
        while j < needle.len()
            invariant
                hay@.len() <= usize::MAX,
                i <= last,
                last == hay@.len() - needle@.len(),
                j <= needle@.len(),
                same == (hay@.subrange(i as int, i + j) == needle@.subrange(0, j as int)),
            decreases needle@.len() - j,
        {
            if hay[i + j] != needle[j] {
                same = false;
            }
            proof {
                if hay@.subrange(i as int, i + j) == needle@.subrange(0, j as int) && hay@[i + j]
                    == needle@[j as int] {
                    assert(hay@.subrange(i as int, i + j + 1) == needle@.subrange(0, j + 1));
                }
                if hay@.subrange(i as int, i + j + 1) == needle@.subrange(0, j + 1) {
                    assert(hay@.subrange(i as int, i + j) == hay@.subrange(i as int, i + j + 1).subrange(
                        0,
                        j as int,
                    ));
                    assert(needle@.subrange(0, j as int) == needle@.subrange(0, j + 1).subrange(
                        0,
                        j as int,
                    ));
                    assert(hay@.subrange(i as int, i + j + 1)[j as int] == hay@[i + j]);
                }
            }
            j = j + 1;
        }
        assert(needle@.subrange(0, needle@.len() as int) == needle@);
        if same {
            return true;
        }
        if i == last {
            assert forall|k: int|
                0 <= k && k + needle@.len() <= hay@.len() implies #[trigger] hay@.subrange(
                k,
                k + needle@.len(),
            ) != needle@ by {
                assert(k <= i);
            }
            return false;
        }
        i = i + 1;
    }
}

/// The text that marks a negotiated URI as the transport-wide CC extension.
pub open spec fn twcc_marker() -> Seq<u8> {
    "transport-wide-cc".spec_bytes()
}

/// The TransportCc id after registering `pairs` in order, starting from
/// `start`: the id of the last pair whose URI contains the marker.
pub open spec fn negotiated_twcc_id(start: u8, pairs: Seq<(u8, &str)>) -> u8
    decreases pairs.len(),
{
    if pairs.len() == 0 {
        start
    } else if is_substring(pairs.last().1.spec_bytes(), twcc_marker()) {
        pairs.last().0
    } else {
        negotiated_twcc_id(start, pairs.drop_last())
    }
}

/// Builds an [`ExtensionMap`] from the (id, URI) pairs negotiated in SDP.
pub struct ExtensionMapBuilder {
    map: ExtensionMap,
}

impl ExtensionMapBuilder {
    /// The map built so far.
    pub closed spec fn current(&self) -> ExtensionMap {
        self.map
    }

    pub fn new() -> (b: Self)
        ensures
            forall|k: ExtensionKind| #[trigger] b.current().id_of(k) == 0,
    {
        ExtensionMapBuilder { map: ExtensionMap::new() }
    }

    /// Registers each pair in order: a URI containing "transport-wide-cc"
    /// sets the TransportCc id.
    pub fn with_pairs(self, pairs: Vec<(u8, &str)>) -> (b: Self)
        ensures
            b.current().id_of(ExtensionKind::TransportCc) == negotiated_twcc_id(
                self.current().id_of(ExtensionKind::TransportCc),
                pairs@,
            ),
            forall|k: ExtensionKind|
                k != ExtensionKind::TransportCc ==> #[trigger] b.current().id_of(k) == self.current().id_of(k),
    {
        let mut this = self;
        let marker = "transport-wide-cc".as_bytes();
        let mut i: usize = 0;
        while i < pairs.len()
            invariant
                i <= pairs@.len(),
                marker@ == twcc_marker(),
                this.current().id_of(ExtensionKind::TransportCc) == negotiated_twcc_id(
                    self.current().id_of(ExtensionKind::TransportCc),
                    pairs@.take(i as int),
                ),
                forall|k: ExtensionKind|
                    k != ExtensionKind::TransportCc ==> #[trigger] this.current().id_of(k) == self.current().id_of(k),
            decreases pairs@.len() - i,
        {
            let (id, uri) = pairs[i];
            assert(pairs@.take(i + 1).drop_last() == pairs@.take(i as int));
            assert(pairs@.take(i + 1).last() == pairs@[i as int]);
            if contains_bytes(uri.as_bytes(), marker) {
                this.map.set(ExtensionKind::TransportCc, id);
            }
            i = i + 1;
        }
        assert(pairs@.take(pairs@.len() as int) == pairs@);
        this
    }

    pub fn build(self) -> (m: ExtensionMap)
        ensures
            m == self.current(),
    {
        self.map
    }
}

/// The id recorded for `kind` after applying `sets` in order to a map that
/// recorded `start` for it: the value of the last set for `kind`, or `start`
/// when there is none.
pub open spec fn id_after_sets(start: u8, sets: Seq<(ExtensionKind, u8)>, kind: ExtensionKind) -> u8
    decreases sets.len(),
{
    if sets.len() == 0 {
        start
    } else if sets.last().0 == kind {
        sets.last().1
    } else {
        id_after_sets(start, sets.drop_last(), kind)
    }
}

/// After `ExtensionMap::new` and any sequence of `set` calls (`maps[j + 1]`
/// being what `set(sets[j].0, sets[j].1)` makes of `maps[j]`), the map records
/// for each kind the value of the last set for it, or 0 when there was none;
/// so `get_id` gives `None` exactly when there was no such set or the last
/// one set 0, and `Some` of the last value otherwise.
pub proof fn law_get_id_after_sets(maps: Seq<ExtensionMap>, sets: Seq<(ExtensionKind, u8)>)
    requires
        maps.len() == sets.len() + 1,
        forall|k: ExtensionKind| #[trigger] maps[0].id_of(k) == 0,
        forall|j: int|
            0 <= j < sets.len() ==> #[trigger] maps[j + 1].id_of(sets[j].0) == sets[j].1,
        forall|j: int, k: ExtensionKind|
            0 <= j < sets.len() && k != sets[j].0 ==> #[trigger] maps[j + 1].id_of(k) == maps[j].id_of(k),
    ensures
        forall|k: ExtensionKind| #[trigger] maps.last().id_of(k) == id_after_sets(0, sets, k),
    decreases sets.len(),
{
    if sets.len() > 0 {
        let n = sets.len() - 1;
        law_get_id_after_sets(maps.drop_last(), sets.drop_last());
        assert forall|k: ExtensionKind| #[trigger] maps.last().id_of(k) == id_after_sets(0, sets, k) by {
            assert(maps.drop_last().last() == maps[n]);
            assert(maps[n + 1].id_of(sets[n].0) == sets[n].1);
            if k != sets[n].0 {
                assert(maps[n + 1].id_of(k) == maps[n].id_of(k));
            }
        }
    }
}

/// Registering `p` and then `q` negotiates the same TransportCc id as
/// registering `p` followed by `q` in one call.
pub proof fn law_with_pairs_composes(start: u8, p: Seq<(u8, &str)>, q: Seq<(u8, &str)>)
    ensures
        negotiated_twcc_id(negotiated_twcc_id(start, p), q) == negotiated_twcc_id(start, p + q),
    decreases q.len(),
{
    if q.len() == 0 {
        assert(p + q == p);
    } else {
        assert((p + q).drop_last() == p + q.drop_last());
        assert((p + q).last() == q.last());
        law_with_pairs_composes(start, p, q.drop_last());
    }
}

proof fn lemma_negotiated_shape(x: u8, y: u8, p: Seq<(u8, &str)>)
    ensures
        negotiated_twcc_id(x, p) == negotiated_twcc_id(y, p) || (negotiated_twcc_id(x, p) == x
            && negotiated_twcc_id(y, p) == y),
    decreases p.len(),
{
    if p.len() > 0 {
        lemma_negotiated_shape(x, y, p.drop_last());
    }
}

/// Registering the same pairs twice negotiates what registering them once does.
pub proof fn law_with_pairs_idempotent(start: u8, p: Seq<(u8, &str)>)
    ensures
        negotiated_twcc_id(negotiated_twcc_id(start, p), p) == negotiated_twcc_id(start, p),
{
    lemma_negotiated_shape(negotiated_twcc_id(start, p), start, p);
}

/// The `set` calls that registering `pairs` amounts to: one setting
/// TransportCc to the id of each pair whose URI contains the marker, in order.
pub open spec fn twcc_sets(pairs: Seq<(u8, &str)>) -> Seq<(ExtensionKind, u8)>
    decreases pairs.len(),
{
    if pairs.len() == 0 {
        Seq::empty()
    } else if is_substring(pairs.last().1.spec_bytes(), twcc_marker()) {
        twcc_sets(pairs.drop_last()).push((ExtensionKind::TransportCc, pairs.last().0))
    } else {
        twcc_sets(pairs.drop_last())
    }
}

/// The map that a builder builds from `pairs` is the one that the sequence of
/// `set` calls `twcc_sets(pairs)` makes of the builder's map.
pub proof fn law_build_is_sequence_of_sets(start: u8, pairs: Seq<(u8, &str)>)
    ensures
        negotiated_twcc_id(start, pairs) == id_after_sets(start, twcc_sets(pairs), ExtensionKind::TransportCc),
        forall|k: ExtensionKind|
            k != ExtensionKind::TransportCc ==> #[trigger] id_after_sets(start, twcc_sets(pairs), k) == start,
    decreases pairs.len(),
{
    if pairs.len() > 0 {
        law_build_is_sequence_of_sets(start, pairs.drop_last());
        let prev = twcc_sets(pairs.drop_last());
        if is_substring(pairs.last().1.spec_bytes(), twcc_marker()) {
            assert(prev.push((ExtensionKind::TransportCc, pairs.last().0)).drop_last() == prev);
        }
    }
}

impl<'a> TryFromSpecImpl<&'a Bytes> for RtpPacket<'a> {
    open spec fn obeys_try_from_spec() -> bool {
        false
    }

    open spec fn try_from_spec(b: &'a Bytes) -> Result<RtpPacket<'a>, Error> {
        arbitrary()
    }
}

impl<'a> TryFrom<&'a Bytes> for RtpPacket<'a> {
    type Error = Error;

    fn try_from(b: &'a Bytes) -> (r: Result<RtpPacket<'a>, Error>)
        ensures
            match r {
                Ok(p) => p.describes(bytes_data(*b)),
                Err(e) => parse_error(bytes_data(*b)) == Some(e),
            },
    {
        RtpPacket::parse(bytes_slice(b))
    }
}

} // verus!
