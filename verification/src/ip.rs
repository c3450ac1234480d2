use vstd::prelude::*;
use vstd::slice::{slice_subrange, slice_to_vec};
use crate::common::{be16, NetParseError, Netparse};

verus! {

/// The IP protocol numbers this stack recognizes in an IPv4 header.
#[derive(Debug, Clone, Copy, PartialEq, Eq, Structural)]
pub enum InternetProto {
    Icmp,
    Tcp,
    Udp,
}

impl InternetProto {
    /// Protocol number 1 is ICMP, 6 is TCP, 17 is UDP; every other number is
    /// a recognized-but-unsupported protocol and is reported as such.
    pub open spec fn spec_from_byte(b: u8) -> Result<InternetProto, NetParseError> {
        if b == 1 {
            Ok(InternetProto::Icmp)
        } else if b == 6 {
            Ok(InternetProto::Tcp)
        } else if b == 17 {
            Ok(InternetProto::Udp)
        } else {
            Err(NetParseError::UnhandledVariant)
        }
    }

    pub fn from_byte(b: u8) -> (r: Result<InternetProto, NetParseError>)
        ensures
            r == InternetProto::spec_from_byte(b),
    {
        match b {
            1 => Ok(InternetProto::Icmp),
            6 => Ok(InternetProto::Tcp),
            17 => Ok(InternetProto::Udp),
            _ => Err(NetParseError::UnhandledVariant),
        }
    }
}

/// An IPv4 address, one field per octet, most significant first.
#[derive(Debug, Clone, Copy, PartialEq, Eq, PartialOrd, Ord, Hash, Structural)]
pub struct Ipv4Addr {
    pub o0: u8,
    pub o1: u8,
    pub o2: u8,
    pub o3: u8,
}

impl Ipv4Addr {
    /// The address whose network-byte-order encoding is `b` at offset `i`.
    pub open spec fn spec_at(b: Seq<u8>, i: int) -> Ipv4Addr {
        Ipv4Addr { o0: b[i], o1: b[i + 1], o2: b[i + 2], o3: b[i + 3] }
    }

    pub fn from_be_bytes(bs: [u8; 4]) -> (r: Ipv4Addr)
        ensures
            r == Ipv4Addr::spec_at(bs@, 0),
    {
        Ipv4Addr { o0: bs[0], o1: bs[1], o2: bs[2], o3: bs[3] }
    }
}

/// A decoded IPv4 datagram header together with its payload. The payload is
/// copied out of the caller's frame buffer, so the view outlives the buffer.
pub struct Ipv4Packet {
    pub src_addr: Ipv4Addr,
    pub dst_addr: Ipv4Addr,
    pub proto: InternetProto,
    pub time_to_live: u8,
    pub data: Vec<u8>,
}

/// Version field: high nibble of byte 0.
pub open spec fn ipv4_version(b: Seq<u8>) -> u8 {
    b[0] >> 4
}

/// Header length in octets: low nibble of byte 0 counts 32-bit words.
pub open spec fn ipv4_header_len(b: Seq<u8>) -> int {
    4 * (b[0] & 0x0F)
}

/// Total datagram length in octets: bytes 2-3, network byte order.
pub open spec fn ipv4_total_len(b: Seq<u8>) -> int {
    be16(b, 2) as int
}

/// Fragmentation flags: bits 5-7 of byte 6.
pub open spec fn ipv4_frag_flags(b: Seq<u8>) -> u8 {
    (b[6] & 0xE0) >> 5
}

/// A datagram is unfragmented when the more-fragments and reserved flag bits
/// are clear (flags 000 or 010) and the 13-bit fragment offset is zero.
pub open spec fn ipv4_unfragmented(b: Seq<u8>) -> bool {
    &&& (ipv4_frag_flags(b) == 0 || ipv4_frag_flags(b) == 2)
    &&& b[6] & 0x1F == 0
    &&& b[7] == 0
}

/// The source address of the header encoded in `b` (bytes 12-15).
pub open spec fn ipv4_src(b: Seq<u8>) -> Ipv4Addr {
    Ipv4Addr::spec_at(b, 12)
}

/// The destination address of the header encoded in `b` (bytes 16-19).
pub open spec fn ipv4_dst(b: Seq<u8>) -> Ipv4Addr {
    Ipv4Addr::spec_at(b, 16)
}

/// Why `b` is rejected as an IPv4 datagram, or `None` when it decodes.
/// The conditions are checked in this order, so the first failing one names
/// the error: at least one byte to read the version nibble; version 4 — a
/// wrong version is the incorrect-variant (wrong decoder) error whatever
/// the remaining bytes hold; enough bytes for the fixed header; header
/// length at least 20 and within the total length, which itself must lie
/// within the buffer; no fragmentation; a time-to-live that survives the
/// decrement; a recognized protocol number.
pub open spec fn spec_ipv4_err(b: Seq<u8>) -> Option<NetParseError> {
    if b.len() == 0 {
        Some(NetParseError::MalformedPacket)
    } else if ipv4_version(b) != 4 {
        Some(NetParseError::IncorrectVariant)
    } else if b.len() < 20 {
        Some(NetParseError::MalformedPacket)
    } else if ipv4_header_len(b) < 20 {
        Some(NetParseError::MalformedPacket)
    } else if ipv4_total_len(b) < ipv4_header_len(b) || ipv4_total_len(b) > b.len() {
        Some(NetParseError::MalformedPacket)
    } else if !ipv4_unfragmented(b) {
        Some(NetParseError::UnhandledVariant)
    } else if b[8] <= 1 {
        Some(NetParseError::Other)
    } else if spec_ipv4_err_proto(b) {
        Some(NetParseError::UnhandledVariant)
    } else {
        None
    }
}

/// The protocol number is none of the recognized ones.
pub open spec fn spec_ipv4_err_proto(b: Seq<u8>) -> bool {
    !(b[9] == 1 || b[9] == 6 || b[9] == 17)
}

/// `b` is a valid encoding of an unfragmented IPv4 header with exactly
/// these fields and lengths.
pub open spec fn ipv4_encodes(
    b: Seq<u8>,
    src: Ipv4Addr,
    dst: Ipv4Addr,
    proto_byte: u8,
    ttl: u8,
    hdr_len: int,
    total_len: int,
) -> bool {
    &&& b.len() >= 20
    &&& ipv4_version(b) == 4
    &&& ipv4_header_len(b) == hdr_len
    &&& 20 <= hdr_len
    &&& ipv4_total_len(b) == total_len
    &&& hdr_len <= total_len <= b.len()
    &&& ipv4_unfragmented(b)
    &&& b[8] == ttl
    &&& b[9] == proto_byte
    &&& ipv4_src(b) == src
    &&& ipv4_dst(b) == dst
}

/// Round trip: every valid encoding of an unfragmented IPv4 header with a
/// surviving time-to-live and a recognized protocol decodes, and the
/// decoder's contract then recovers exactly the encoded source and
/// destination addresses, the protocol, the time-to-live less one, and the
/// payload octets between the header length and the total length.
pub proof fn lemma_ipv4_round_trip(
    b: Seq<u8>,
    src: Ipv4Addr,
    dst: Ipv4Addr,
    proto_byte: u8,
    ttl: u8,
    hdr_len: int,
    total_len: int,
)
    requires
        ipv4_encodes(b, src, dst, proto_byte, ttl, hdr_len, total_len),
        ttl >= 2,
        proto_byte == 1 || proto_byte == 6 || proto_byte == 17,
    ensures
        spec_ipv4_err(b) is None,
        ipv4_src(b) == src,
        ipv4_dst(b) == dst,
        InternetProto::spec_from_byte(b[9]) == InternetProto::spec_from_byte(proto_byte),
{
}

/// A header whose fragmentation flags have the reserved or more-fragments
/// bit set (patterns 001, 100, 101, 111) is rejected as a recognized but
/// unsupported variant, whatever else it holds, as is any nonzero fragment
/// offset.
pub proof fn lemma_ipv4_fragmented_rejected(b: Seq<u8>)
    requires
        b.len() >= 20,
        ipv4_version(b) == 4,
        20 <= ipv4_header_len(b) <= ipv4_total_len(b) <= b.len(),
        ipv4_frag_flags(b) == 1 || ipv4_frag_flags(b) == 4 || ipv4_frag_flags(b) == 5
            || ipv4_frag_flags(b) == 7,
    ensures
        spec_ipv4_err(b) == Some(NetParseError::UnhandledVariant),
{
}

/// An otherwise well-formed, unfragmented datagram whose time-to-live is 0
/// or 1 — so that the decrement would reach zero — is discarded before any
/// dispatch, whatever protocol it carries.
pub proof fn lemma_ipv4_ttl_expired_dropped(b: Seq<u8>)
    requires
        b.len() >= 20,
        ipv4_version(b) == 4,
        20 <= ipv4_header_len(b) <= ipv4_total_len(b) <= b.len(),
        ipv4_unfragmented(b),
        b[8] <= 1,
    ensures
        spec_ipv4_err(b) == Some(NetParseError::Other),
{
}

impl Ipv4Packet {
    /// Decodes the IPv4 header at the start of `bytes` and copies out its
    /// payload, the octets between the header length and the total length.
    /// The time-to-live is decremented before any further processing; a
    /// datagram whose time-to-live would reach zero is discarded, since this
    /// stack never forwards. Decoding never panics: every violation is
    /// reported as the error `spec_ipv4_err` names for it.
    pub fn from_be_bytes_slice(bytes: &[u8]) -> (r: Result<Ipv4Packet, NetParseError>)
        ensures
            r is Ok <==> spec_ipv4_err(bytes@) is None,
            r is Err ==> r == Err::<Ipv4Packet, NetParseError>(spec_ipv4_err(bytes@)->Some_0),
            r matches Ok(p) ==> {
                &&& p.src_addr == ipv4_src(bytes@)
                &&& p.dst_addr == ipv4_dst(bytes@)
                &&& InternetProto::spec_from_byte(bytes@[9]) == Ok::<InternetProto,
                    NetParseError>(p.proto)
                &&& p.time_to_live == bytes@[8] - 1
                &&& p.data@ == bytes@.subrange(ipv4_header_len(bytes@), ipv4_total_len(bytes@))
            },
    {
        if bytes.len() == 0 {
            return Err(NetParseError::MalformedPacket);
        }
        let b0 = bytes[0];
        if b0 >> 4 != 4 {
            return Err(NetParseError::IncorrectVariant);
        }
        if bytes.len() < 20 {
            return Err(NetParseError::MalformedPacket);
        }
        // header length comes in number of 32-bit words
        let header_len: usize = 4 * ((b0 & 0x0F) as usize);
        if header_len < 20 {
            return Err(NetParseError::MalformedPacket);
        }
        let total_len: usize = match u16::from_be_slice(slice_subrange(bytes, 2, 4)) {
            Ok(v) => v as usize,
            Err(e) => { return Err(e) },
        };
        if total_len < header_len || total_len > bytes.len() {
            return Err(NetParseError::MalformedPacket);
        }
        let flags = (bytes[6] & 0xE0) >> 5;
        if !(flags == 0 || flags == 2) || bytes[6] & 0x1F != 0 || bytes[7] != 0 {
            return Err(NetParseError::UnhandledVariant);
        }
        // decrement the time-to-live before further processing (stops loops)
        let ttl = bytes[8];
        if ttl <= 1 {
            return Err(NetParseError::Other);
        }
        let time_to_live = ttl - 1;
        let proto = match InternetProto::from_byte(bytes[9]) {
            Ok(p) => p,
            Err(e) => { return Err(e) },
        };
        let src_addr = match Ipv4Addr::from_be_slice(slice_subrange(bytes, 12, 16)) {
            Ok(a) => a,
            Err(e) => { return Err(e) },
        };
        let dst_addr = match Ipv4Addr::from_be_slice(slice_subrange(bytes, 16, 20)) {
            Ok(a) => a,
            Err(e) => { return Err(e) },
        };
        let data = slice_to_vec(slice_subrange(bytes, header_len, total_len));
        Ok(Ipv4Packet { src_addr, dst_addr, proto, time_to_live, data })
    }

    pub fn src_addr(&self) -> (r: Ipv4Addr)
        ensures
            r == self.src_addr,
    {
        self.src_addr
    }

    pub fn dst_addr(&self) -> (r: Ipv4Addr)
        ensures
            r == self.dst_addr,
    {
        self.dst_addr
    }

    pub fn proto(&self) -> (r: InternetProto)
        ensures
            r == self.proto,
    {
        self.proto
    }

    pub fn time_to_live(&self) -> (r: u8)
        ensures
            r == self.time_to_live,
    {
        self.time_to_live
    }

    pub fn data(&self) -> (r: &Vec<u8>)
        ensures
            r@ == self.data@,
    {
        &self.data
    }
}

} // verus!
