use vstd::prelude::*;
use crate::ip::Ipv4Addr;

verus! {

/// Failure taxonomy for the wire-format decoders.
///
/// * `MalformedPacket`: structurally invalid header (bounds, sizes, reserved
///   bits) — the packet is dropped and no connection state changes.
/// * `UnhandledVariant`: a recognized but unsupported protocol feature
///   (fragmentation, an unknown IP protocol number) — dropped, not fatal.
/// * `IncorrectVariant`: the wrong decoder was invoked (version mismatch) —
///   a dispatcher bug, not something a peer can trigger on a correct stack.
/// * `Other`: any remaining per-packet drop; in particular a datagram whose
///   time-to-live would reach zero when decremented.
#[derive(Debug, Clone, Copy, PartialEq, Eq, Structural)]
pub enum NetParseError {
    MalformedPacket,
    UnhandledVariant,
    IncorrectVariant,
    Other,
}

/// The unsigned value of the two big-endian bytes at `b[i]`, `b[i + 1]`.
pub open spec fn be16(b: Seq<u8>, i: int) -> u16 {
    (b[i] as int * 0x100 + b[i + 1] as int) as u16
}

/// The unsigned value of the four big-endian bytes starting at `b[i]`.
pub open spec fn be32(b: Seq<u8>, i: int) -> u32 {
    (b[i] as int * 0x100_0000 + b[i + 1] as int * 0x1_0000 + b[i + 2] as int * 0x100
        + b[i + 3] as int) as u32
}

/// A value that can be read out of a network-byte-order byte slice.
pub trait Netparse where Self: Sized {
    /// The mathematical reading of `bytes`: `Some(v)` exactly when `bytes`
    /// has the right length and encodes `v` big-endian.
    spec fn spec_from_be(bytes: Seq<u8>) -> Option<Self>;

    fn from_be_slice(bytes: &[u8]) -> (r: Result<Self, NetParseError>)
        ensures
            match Self::spec_from_be(bytes@) {
                Some(v) => r == Ok::<Self, NetParseError>(v),
                None => r == Err::<Self, NetParseError>(NetParseError::MalformedPacket),
            },
    ;
}

impl Netparse for u16 {
    open spec fn spec_from_be(bytes: Seq<u8>) -> Option<u16> {
        if bytes.len() == 2 {
            Some(be16(bytes, 0))
        } else {
            None
        }
    }

    fn from_be_slice(bytes: &[u8]) -> (r: Result<u16, NetParseError>) {
        if bytes.len() == 2 {
            Ok((bytes[0] as u16) * 0x100 + (bytes[1] as u16))
        } else {
            Err(NetParseError::MalformedPacket)
        }
    }
}

impl Netparse for u32 {
    open spec fn spec_from_be(bytes: Seq<u8>) -> Option<u32> {
        if bytes.len() == 4 {
            Some(be32(bytes, 0))
        } else {
            None
        }
    }

    fn from_be_slice(bytes: &[u8]) -> (r: Result<u32, NetParseError>) {
        if bytes.len() == 4 {
            Ok(
                (bytes[0] as u32) * 0x100_0000 + (bytes[1] as u32) * 0x1_0000
                    + (bytes[2] as u32) * 0x100 + (bytes[3] as u32),
            )
        } else {
            Err(NetParseError::MalformedPacket)
        }
    }
}

impl Netparse for Ipv4Addr {
    open spec fn spec_from_be(bytes: Seq<u8>) -> Option<Ipv4Addr> {
        if bytes.len() == 4 {
            Some(Ipv4Addr::spec_at(bytes, 0))
        } else {
            None
        }
    }

    fn from_be_slice(bytes: &[u8]) -> (r: Result<Ipv4Addr, NetParseError>) {
        if bytes.len() == 4 {
            Ok(Ipv4Addr { o0: bytes[0], o1: bytes[1], o2: bytes[2], o3: bytes[3] })
        } else {
            Err(NetParseError::MalformedPacket)
        }
    }
}

} // verus!
