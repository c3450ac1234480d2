use vstd::prelude::*;
use vstd::arithmetic::div_mod::{
    lemma_mod_add_multiples_vanish, lemma_mod_division_less_than_divisor, lemma_small_mod,
    lemma_sub_mod_noop,
};
use vstd::slice::{slice_subrange, slice_to_vec};
use crate::common::{be16, be32, NetParseError, Netparse};
use crate::ip::Ipv4Addr;

verus! {

// ---------------------------------------------------------------------------
// Wrapping sequence-number arithmetic
// ---------------------------------------------------------------------------
/// Distance from `b` up to `a` in sequence space: the unique `d` in
/// `[0, 2^32)` with `b + d == a (mod 2^32)`. All window-acceptability and
/// acknowledgment-retirement comparisons are phrased over this distance, which
/// is what keeps them correct across the `2^32` wraparound.
pub open spec fn seq_diff(a: u32, b: u32) -> int {
    (a - b) % 0x1_0000_0000
}

/// `a + n` reduced modulo `2^32`.
pub open spec fn seq_add_spec(a: u32, n: int) -> u32 {
    (((a + n) % 0x1_0000_0000)) as u32
}

/// Adds `n` to the sequence number `a`, wrapping modulo `2^32`.
pub fn seq_add(a: u32, n: u32) -> (r: u32)
    ensures
        r == seq_add_spec(a, n as int),
{
    proof {
        lemma_mod_division_less_than_divisor(a + n, 0x1_0000_0000);
    }
    (((a as u64) + (n as u64)) % 0x1_0000_0000) as u32
}

/// The distance from `b` up to `a` in wrapping sequence space.
pub fn seq_sub(a: u32, b: u32) -> (r: u32)
    ensures
        r == seq_diff(a, b),
{
    proof {
        lemma_mod_add_multiples_vanish(a - b, 0x1_0000_0000);
        lemma_mod_division_less_than_divisor(a - b, 0x1_0000_0000);
    }
    (((a as u64) + 0x1_0000_0000 - (b as u64)) % 0x1_0000_0000) as u32
}

// ---------------------------------------------------------------------------
// TCP segment decoding
// ---------------------------------------------------------------------------
/// A decoded TCP segment. The payload is copied out of the caller's buffer,
/// so the view outlives the frame it was decoded from.
pub struct TcpPacket {
    pub src_port: u16,
    pub dst_port: u16,
    pub seq_num: u32,
    pub ack_num: u32,
    pub is_ack: bool,
    pub is_psh: bool,
    pub is_rst: bool,
    pub is_syn: bool,
    pub is_fin: bool,
    pub urg_pointer: Option<u16>,
    pub window_size: u16,
    pub data: Vec<u8>,
}

/// The mathematical content of a TCP segment: `TcpPacket` with the payload
/// abstracted to a byte sequence.
pub ghost struct TcpPacketModel {
    pub src_port: u16,
    pub dst_port: u16,
    pub seq_num: u32,
    pub ack_num: u32,
    pub is_ack: bool,
    pub is_psh: bool,
    pub is_rst: bool,
    pub is_syn: bool,
    pub is_fin: bool,
    pub urg_pointer: Option<u16>,
    pub window_size: u16,
    pub data: Seq<u8>,
}

impl View for TcpPacket {
    type V = TcpPacketModel;

    open spec fn view(&self) -> TcpPacketModel {
        TcpPacketModel {
            src_port: self.src_port,
            dst_port: self.dst_port,
            seq_num: self.seq_num,
            ack_num: self.ack_num,
            is_ack: self.is_ack,
            is_psh: self.is_psh,
            is_rst: self.is_rst,
            is_syn: self.is_syn,
            is_fin: self.is_fin,
            urg_pointer: self.urg_pointer,
            window_size: self.window_size,
            data: self.data@,
        }
    }
}

/// Data offset in octets: the high nibble of byte 12 counts 32-bit words.
pub open spec fn tcp_data_offset(b: Seq<u8>) -> int {
    4 * (b[12] >> 4)
}

/// The six reserved bits (low nibble of byte 12, top two bits of byte 13)
/// must all be zero.
pub open spec fn tcp_reserved_zero(b: Seq<u8>) -> bool {
    b[12] & 0x0F == 0 && b[13] >> 6 == 0
}

/// Why `b` is rejected as a TCP segment, or `None` when it decodes. Checked
/// in order: enough bytes for the fixed header; reserved bits all zero; a
/// data offset of at least 20 octets that stays within the buffer.
pub open spec fn spec_tcp_err(b: Seq<u8>) -> Option<NetParseError> {
    if b.len() < 20 {
        Some(NetParseError::MalformedPacket)
    } else if !tcp_reserved_zero(b) {
        Some(NetParseError::MalformedPacket)
    } else if tcp_data_offset(b) < 20 || tcp_data_offset(b) > b.len() {
        Some(NetParseError::MalformedPacket)
    } else {
        None
    }
}

/// The segment encoded in `b`, assuming `spec_tcp_err(b)` is `None`.
pub open spec fn spec_tcp_view(b: Seq<u8>) -> TcpPacketModel {
    TcpPacketModel {
        src_port: be16(b, 0),
        dst_port: be16(b, 2),
        seq_num: be32(b, 4),
        ack_num: be32(b, 8),
        is_ack: b[13] & 0x10 != 0,
        is_psh: b[13] & 0x08 != 0,
        is_rst: b[13] & 0x04 != 0,
        is_syn: b[13] & 0x02 != 0,
        is_fin: b[13] & 0x01 != 0,
        urg_pointer: if b[13] & 0x20 != 0 {
            Some(be16(b, 18))
        } else {
            None
        },
        window_size: be16(b, 14),
        data: b.subrange(tcp_data_offset(b), b.len() as int),
    }
}

impl TcpPacket {
    /// Decodes the TCP header at the start of `bytes` (which the dispatcher
    /// delimits to the IPv4 payload) and copies out the payload after the
    /// data offset. Options are skipped structurally: the offset is honored,
    /// their content ignored. A segment with any reserved bit set is
    /// malformed and yields no partially populated value. Never panics.
    pub fn from_be_bytes_slice(bytes: &[u8]) -> (r: Result<TcpPacket, NetParseError>)
        ensures
            r is Ok <==> spec_tcp_err(bytes@) is None,
            r is Err ==> r == Err::<TcpPacket, NetParseError>(spec_tcp_err(bytes@)->Some_0),
            r matches Ok(p) ==> p@ == spec_tcp_view(bytes@),
    {
        if bytes.len() < 20 {
            return Err(NetParseError::MalformedPacket);
        }
        // the 6 reserved bits must be zero
        if bytes[12] & 0x0F != 0 || bytes[13] >> 6 != 0 {
            return Err(NetParseError::MalformedPacket);
        }
        // data offset comes in number of 32-bit words
        let data_offset: usize = 4 * ((bytes[12] >> 4) as usize);
        if data_offset < 20 || data_offset > bytes.len() {
            return Err(NetParseError::MalformedPacket);
        }
        let src_port = match u16::from_be_slice(slice_subrange(bytes, 0, 2)) {
            Ok(v) => v,
            Err(e) => { return Err(e) },
        };
        let dst_port = match u16::from_be_slice(slice_subrange(bytes, 2, 4)) {
            Ok(v) => v,
            Err(e) => { return Err(e) },
        };
        let seq_num = match u32::from_be_slice(slice_subrange(bytes, 4, 8)) {
            Ok(v) => v,
            Err(e) => { return Err(e) },
        };
        let ack_num = match u32::from_be_slice(slice_subrange(bytes, 8, 12)) {
            Ok(v) => v,
            Err(e) => { return Err(e) },
        };
        let flags = bytes[13];
        let is_urg = flags & 0x20 != 0;
        let is_ack = flags & 0x10 != 0;
        let is_psh = flags & 0x08 != 0;
        let is_rst = flags & 0x04 != 0;
        let is_syn = flags & 0x02 != 0;
        let is_fin = flags & 0x01 != 0;
        let window_size = match u16::from_be_slice(slice_subrange(bytes, 14, 16)) {
            Ok(v) => v,
            Err(e) => { return Err(e) },
        };
        let urg_pointer = if is_urg {
            match u16::from_be_slice(slice_subrange(bytes, 18, 20)) {
                Ok(v) => Some(v),
                Err(e) => { return Err(e) },
            }
        } else {
            None
        };
        let data = slice_to_vec(slice_subrange(bytes, data_offset, bytes.len()));
        Ok(TcpPacket {
            src_port,
            dst_port,
            seq_num,
            ack_num,
            is_ack,
            is_psh,
            is_rst,
            is_syn,
            is_fin,
            urg_pointer,
            window_size,
            data,
        })
    }
}

// ---------------------------------------------------------------------------
// Connection state
// ---------------------------------------------------------------------------
/// Fixed initial send sequence number. Randomizing the initial sequence
/// number is a deployment choice; this stack uses a fixed, documented value.
pub const INITIAL_SEND_SEQ: u32 = 0x1000;

/// The receive window this stack advertises.
pub const LOCAL_WINDOW: u16 = 0x4000;

/// Retransmission timeout, in the caller's clock units.
pub const RETRANSMIT_TIMEOUT: u64 = 1000;

/// How often one queue entry may be resent before the connection aborts.
pub const MAX_RETRIES: u32 = 5;

/// TIME_WAIT quiescence delay before the connection is purged, guarding
/// against stray duplicates of a prior connection on a reused four-tuple.
pub const TIME_WAIT_TIMEOUT: u64 = 60000;

/// The RFC793 connection states.
#[derive(Debug, Clone, Copy, PartialEq, Eq, Structural)]
pub enum TcpStateKind {
    Closed,
    Listen,
    SynSent,
    SynReceived,
    Established,
    FinWait1,
    FinWait2,
    CloseWait,
    Closing,
    LastAck,
    TimeWait,
}

/// One retransmission-queue entry: an unacknowledged data-bearing segment,
/// its sequence range start, send time, and how often it was already resent.
pub struct RetransEntry {
    pub seq_num: u32,
    pub payload: Vec<u8>,
    pub sent_at: u64,
    pub retries: u32,
}

/// An outbound segment the state machine asks the dispatcher to transmit.
pub struct OutSegment {
    pub seq_num: u32,
    pub ack_num: u32,
    pub is_syn: bool,
    pub is_ack: bool,
    pub is_fin: bool,
    pub is_rst: bool,
    pub window: u16,
    pub payload: Vec<u8>,
}

/// One TCP connection's state: the RFC793 state kind, the send sequence
/// variables (SND.UNA, SND.NXT, SND.WND), the receive sequence variables
/// (RCV.NXT, RCV.WND), the retransmission queue, and the instant TIME_WAIT
/// was entered (meaningful only there).
pub struct TcpState {
    pub kind: TcpStateKind,
    pub snd_una: u32,
    pub snd_nxt: u32,
    pub snd_wnd: u16,
    pub rcv_nxt: u32,
    pub rcv_wnd: u16,
    pub rtq: Vec<RetransEntry>,
    pub wait_since: u64,
}

/// What one event (segment, timer tick, local send or close) produced:
/// outbound segments in order, at most one chunk of in-order application
/// data, an end-of-stream mark, and a connection-reset mark.
/// The connection-fatal failures, surfaced to the application side exactly
/// once as the connection is destroyed: the peer reset the connection, or a
/// queued segment used up its bounded retransmission retries.
#[derive(Debug, Clone, Copy, PartialEq, Eq, Structural)]
pub enum TcpProcessError {
    ConnectionReset,
    RetriesExhausted,
}

pub struct TcpOutput {
    pub segments: Vec<OutSegment>,
    pub delivered: Option<Vec<u8>>,
    pub eof: bool,
    pub reset: Option<TcpProcessError>,
}

#[verifier::ext_equal]
pub ghost struct EntryModel {
    pub seq_num: u32,
    pub payload: Seq<u8>,
    pub sent_at: u64,
    pub retries: u32,
}

#[verifier::ext_equal]
pub ghost struct OutSegModel {
    pub seq_num: u32,
    pub ack_num: u32,
    pub is_syn: bool,
    pub is_ack: bool,
    pub is_fin: bool,
    pub is_rst: bool,
    pub window: u16,
    pub payload: Seq<u8>,
}

#[verifier::ext_equal]
pub ghost struct StateModel {
    pub kind: TcpStateKind,
    pub snd_una: u32,
    pub snd_nxt: u32,
    pub snd_wnd: u16,
    pub rcv_nxt: u32,
    pub rcv_wnd: u16,
    pub rtq: Seq<EntryModel>,
    pub wait_since: u64,
}

#[verifier::ext_equal]
pub ghost struct OutputModel {
    pub segments: Seq<OutSegModel>,
    pub delivered: Option<Seq<u8>>,
    pub eof: bool,
    pub reset: Option<TcpProcessError>,
}

/// A transition's complete result: the successor state and what it emitted.
#[verifier::ext_equal]
pub ghost struct StepModel {
    pub state: StateModel,
    pub out: OutputModel,
}

pub open spec fn rtq_view(v: Seq<RetransEntry>) -> Seq<EntryModel> {
    v.map_values(|e: RetransEntry| e@)
}

pub open spec fn segs_view(v: Seq<OutSegment>) -> Seq<OutSegModel> {
    v.map_values(|s: OutSegment| s@)
}

impl View for RetransEntry {
    type V = EntryModel;

    open spec fn view(&self) -> EntryModel {
        EntryModel {
            seq_num: self.seq_num,
            payload: self.payload@,
            sent_at: self.sent_at,
            retries: self.retries,
        }
    }
}

impl View for OutSegment {
    type V = OutSegModel;

    open spec fn view(&self) -> OutSegModel {
        OutSegModel {
            seq_num: self.seq_num,
            ack_num: self.ack_num,
            is_syn: self.is_syn,
            is_ack: self.is_ack,
            is_fin: self.is_fin,
            is_rst: self.is_rst,
            window: self.window,
            payload: self.payload@,
        }
    }
}

impl View for TcpState {
    type V = StateModel;

    open spec fn view(&self) -> StateModel {
        StateModel {
            kind: self.kind,
            snd_una: self.snd_una,
            snd_nxt: self.snd_nxt,
            snd_wnd: self.snd_wnd,
            rcv_nxt: self.rcv_nxt,
            rcv_wnd: self.rcv_wnd,
            rtq: rtq_view(self.rtq@),
            wait_since: self.wait_since,
        }
    }
}

impl View for TcpOutput {
    type V = OutputModel;

    open spec fn view(&self) -> OutputModel {
        OutputModel {
            segments: segs_view(self.segments@),
            delivered: match self.delivered {
                Some(v) => Some(v@),
                None => None,
            },
            eof: self.eof,
            reset: self.reset,
        }
    }
}

// ---------------------------------------------------------------------------
// The transition relation, as a function over the models
// ---------------------------------------------------------------------------
/// States in which a connection is past the opening handshake's first step,
/// so an RST aborts it.
pub open spec fn is_synchronized(k: TcpStateKind) -> bool {
    k != TcpStateKind::Closed && k != TcpStateKind::Listen
}

/// States in which inbound payload and FIN are consumed.
pub open spec fn can_receive(k: TcpStateKind) -> bool {
    k == TcpStateKind::Established || k == TcpStateKind::FinWait1 || k == TcpStateKind::FinWait2
}

/// The acceptability test: a segment is acceptable when its sequence number
/// falls within `[RCV.NXT, RCV.NXT + RCV.WND)` in wrapping sequence space,
/// or when it carries no payload and equals RCV.NXT exactly.
pub open spec fn seg_acceptable(s: StateModel, g: TcpPacketModel) -> bool {
    ||| (g.data.len() == 0 && g.seq_num == s.rcv_nxt)
    ||| seq_diff(g.seq_num, s.rcv_nxt) < s.rcv_wnd
}

/// An acknowledgment number is valid when it acknowledges no more than what
/// was sent: it lies within `[SND.UNA, SND.NXT]` in wrapping sequence space.
pub open spec fn ack_valid(s: StateModel, ackno: u32) -> bool {
    seq_diff(ackno, s.snd_una) <= seq_diff(s.snd_nxt, s.snd_una)
}

/// The sequence number one past the last payload octet of `e`.
pub open spec fn entry_end(e: EntryModel) -> u32 {
    seq_add_spec(e.seq_num, e.payload.len() as int)
}

/// Whether the acknowledgment number `ackno` retires entry `e`: its sequence
/// range lies entirely below `ackno`, measured from the old SND.UNA `una`.
pub open spec fn entry_retired(e: EntryModel, una: u32, ackno: u32) -> bool {
    seq_diff(entry_end(e), una) <= seq_diff(ackno, una)
}

/// The retransmission queue after the entries `ackno` retires are removed.
pub open spec fn retired_queue(rtq: Seq<EntryModel>, una: u32, ackno: u32) -> Seq<EntryModel>
    decreases rtq.len(),
{
    if rtq.len() == 0 {
        Seq::empty()
    } else {
        let rest = retired_queue(rtq.drop_last(), una, ackno);
        if entry_retired(rtq.last(), una, ackno) {
            rest
        } else {
            rest.push(rtq.last())
        }
    }
}

/// A pure acknowledgment for state `s`: sequence SND.NXT, acknowledgment
/// RCV.NXT, the local window, no payload.
pub open spec fn ack_of(s: StateModel) -> OutSegModel {
    OutSegModel {
        seq_num: s.snd_nxt,
        ack_num: s.rcv_nxt,
        is_syn: false,
        is_ack: true,
        is_fin: false,
        is_rst: false,
        window: s.rcv_wnd,
        payload: Seq::empty(),
    }
}

pub open spec fn empty_output() -> OutputModel {
    OutputModel { segments: Seq::empty(), delivered: None, eof: false, reset: None }
}

/// A fresh passive-open connection, waiting for a SYN.
pub open spec fn listen_model() -> StateModel {
    StateModel {
        kind: TcpStateKind::Listen,
        snd_una: 0,
        snd_nxt: 0,
        snd_wnd: 0,
        rcv_nxt: 0,
        rcv_wnd: LOCAL_WINDOW,
        rtq: Seq::empty(),
        wait_since: 0,
    }
}

/// Well-formedness of one connection's state: the retransmission queue exists
/// only once the connection may have sent data, and each queued payload is a
/// nonempty segment no longer than one IPv4 datagram can carry.
pub open spec fn state_wf(s: StateModel) -> bool {
    &&& ((s.kind == TcpStateKind::Closed || s.kind == TcpStateKind::Listen) ==> s.rtq.len() == 0)
    &&& (forall|i: int|
        0 <= i < s.rtq.len() ==> 1 <= (#[trigger] s.rtq[i]).payload.len() <= 0xFFFF)
}

/// The state-kind change an acknowledgment of everything sent causes.
pub open spec fn kind_after_ack(k: TcpStateKind, fully_acked: bool) -> TcpStateKind {
    if fully_acked {
        if k == TcpStateKind::SynReceived {
            TcpStateKind::Established
        } else if k == TcpStateKind::FinWait1 {
            TcpStateKind::FinWait2
        } else if k == TcpStateKind::Closing {
            TcpStateKind::TimeWait
        } else if k == TcpStateKind::LastAck {
            TcpStateKind::Closed
        } else {
            k
        }
    } else {
        k
    }
}

/// The complete transition for one inbound segment `g` against state `s` at
/// time `now`: the RFC793-shaped rules of this stack.
///
/// In order: CLOSED ignores everything; LISTEN answers a SYN with SYN+ACK
/// and moves to SYN_RECEIVED; an RST in any synchronized state aborts to
/// CLOSED, discards the retransmission queue and surfaces a reset, emitting
/// nothing; SYN_SENT waits for SYN+ACK; everywhere else an unacceptable
/// segment — and likewise an acceptable one still carrying SYN, which is
/// never ordinary carriage on a synchronized connection — is dropped and
/// answered with a pure ACK carrying RCV.NXT. For an
/// acceptable segment: a valid ACK retires queue entries wholly below the
/// acknowledgment number, advances SND.UNA to it, adopts the peer's window,
/// and — when everything sent is acknowledged — advances the handshake and
/// close sub-states; in-order payload in a receiving state is delivered and
/// RCV.NXT advances past it; an in-order FIN advances RCV.NXT once more,
/// marks end-of-stream and moves ESTABLISHED to CLOSE_WAIT, FIN_WAIT_1 to
/// CLOSING (or TIME_WAIT when its FIN is already acknowledged) and
/// FIN_WAIT_2 to TIME_WAIT; anything consumed is acknowledged with a pure
/// ACK carrying the new RCV.NXT.
pub open spec fn step(s: StateModel, g: TcpPacketModel, now: u64) -> StepModel {
    if s.kind == TcpStateKind::Closed {
        StepModel { state: s, out: empty_output() }
    } else if s.kind == TcpStateKind::Listen {
        if g.is_rst || !g.is_syn {
            StepModel { state: s, out: empty_output() }
        } else {
            let s2 = StateModel {
                kind: TcpStateKind::SynReceived,
                snd_una: INITIAL_SEND_SEQ,
                snd_nxt: seq_add_spec(INITIAL_SEND_SEQ, 1),
                snd_wnd: g.window_size,
                rcv_nxt: seq_add_spec(g.seq_num, 1),
                rcv_wnd: LOCAL_WINDOW,
                rtq: s.rtq,
                wait_since: s.wait_since,
            };
            StepModel {
                state: s2,
                out: OutputModel {
                    segments: seq![
                        OutSegModel {
                            seq_num: INITIAL_SEND_SEQ,
                            ack_num: s2.rcv_nxt,
                            is_syn: true,
                            is_ack: true,
                            is_fin: false,
                            is_rst: false,
                            window: LOCAL_WINDOW,
                            payload: Seq::empty(),
                        },
                    ],
                    delivered: None,
                    eof: false,
                    reset: None,
                },
            }
        }
    } else if g.is_rst {
        StepModel {
            state: StateModel { kind: TcpStateKind::Closed, rtq: Seq::empty(), ..s },
            out: OutputModel {
                segments: Seq::empty(),
                delivered: None,
                eof: false,
                reset: Some(TcpProcessError::ConnectionReset),
            },
        }
    } else if s.kind == TcpStateKind::SynSent {
        if g.is_syn && g.is_ack && ack_valid(s, g.ack_num) {
            let s2 = StateModel {
                kind: TcpStateKind::Established,
                snd_una: g.ack_num,
                snd_wnd: g.window_size,
                rcv_nxt: seq_add_spec(g.seq_num, 1),
                ..s
            };
            StepModel {
                state: s2,
                out: OutputModel {
                    segments: seq![ack_of(s2)],
                    delivered: None,
                    eof: false,
                    reset: None,
                },
            }
        } else {
            StepModel { state: s, out: empty_output() }
        }
    } else if !seg_acceptable(s, g) {
        StepModel {
            state: s,
            out: OutputModel {
                segments: seq![ack_of(s)],
                delivered: None,
                eof: false,
                reset: None,
            },
        }
    } else if g.is_syn {
        // a SYN on a synchronized connection is never ordinary carriage:
        // the whole segment is dropped and the peer resynchronized
        StepModel {
            state: s,
            out: OutputModel {
                segments: seq![ack_of(s)],
                delivered: None,
                eof: false,
                reset: None,
            },
        }
    } else {
        let s1 = if g.is_ack && ack_valid(s, g.ack_num) {
            let k1 = kind_after_ack(s.kind, g.ack_num == s.snd_nxt);
            StateModel {
                kind: k1,
                snd_una: g.ack_num,
                snd_wnd: g.window_size,
                rtq: if k1 == TcpStateKind::Closed {
                    Seq::empty()
                } else {
                    retired_queue(s.rtq, s.snd_una, g.ack_num)
                },
                wait_since: if k1 == TcpStateKind::TimeWait && s.kind == TcpStateKind::Closing {
                    now
                } else {
                    s.wait_since
                },
                ..s
            }
        } else {
            s
        };
        let deliver = g.data.len() > 0 && g.seq_num == s1.rcv_nxt && can_receive(s1.kind);
        let s2 = if deliver {
            StateModel { rcv_nxt: seq_add_spec(s1.rcv_nxt, g.data.len() as int), ..s1 }
        } else {
            s1
        };
        let fin_ok = g.is_fin && can_receive(s2.kind) && (deliver || (g.data.len() == 0
            && g.seq_num == s2.rcv_nxt));
        let s3 = if fin_ok {
            let k3 = if s2.kind == TcpStateKind::Established {
                TcpStateKind::CloseWait
            } else if s2.kind == TcpStateKind::FinWait1 {
                if s2.snd_una == s2.snd_nxt {
                    TcpStateKind::TimeWait
                } else {
                    TcpStateKind::Closing
                }
            } else {
                TcpStateKind::TimeWait
            };
            StateModel {
                kind: k3,
                rcv_nxt: seq_add_spec(s2.rcv_nxt, 1),
                wait_since: if k3 == TcpStateKind::TimeWait {
                    now
                } else {
                    s2.wait_since
                },
                ..s2
            }
        } else {
            s2
        };
        let need_ack = deliver || fin_ok || g.data.len() > 0;
        StepModel {
            state: s3,
            out: OutputModel {
                segments: if need_ack {
                    seq![ack_of(s3)]
                } else {
                    Seq::empty()
                },
                delivered: if deliver {
                    Some(g.data)
                } else {
                    None
                },
                eof: fin_ok,
                reset: None,
            },
        }
    }
}

// ---------------------------------------------------------------------------
// Timer, local close and local send transitions
// ---------------------------------------------------------------------------
/// Whether entry `e` has waited at least the retransmission timeout at `now`.
pub open spec fn entry_timed_out(e: EntryModel, now: u64) -> bool {
    now >= e.sent_at + RETRANSMIT_TIMEOUT
}

/// A timed-out entry that has already been retried the bounded number of
/// times: resending it again is not allowed, the connection aborts instead.
pub open spec fn entry_exhausted(e: EntryModel, now: u64) -> bool {
    entry_timed_out(e, now) && e.retries >= MAX_RETRIES
}

/// The same entry, re-timestamped and with one more retry on record.
pub open spec fn resend_entry(e: EntryModel, now: u64) -> EntryModel {
    EntryModel { sent_at: now, retries: (e.retries + 1) as u32, ..e }
}

/// The wire segment that resends entry `e` unchanged: identical sequence
/// range and payload, current RCV.NXT as acknowledgment.
pub open spec fn seg_of_entry(e: EntryModel, s: StateModel) -> OutSegModel {
    OutSegModel {
        seq_num: e.seq_num,
        ack_num: s.rcv_nxt,
        is_syn: false,
        is_ack: true,
        is_fin: false,
        is_rst: false,
        window: s.rcv_wnd,
        payload: e.payload,
    }
}

/// The retransmission queue after a timer tick: every timed-out entry is
/// re-timestamped with one more retry, the others are untouched, order kept.
pub open spec fn resent_queue(rtq: Seq<EntryModel>, now: u64) -> Seq<EntryModel>
    decreases rtq.len(),
{
    if rtq.len() == 0 {
        Seq::empty()
    } else {
        let e = if entry_timed_out(rtq.last(), now) {
            resend_entry(rtq.last(), now)
        } else {
            rtq.last()
        };
        resent_queue(rtq.drop_last(), now).push(e)
    }
}

/// The segments a timer tick resends: one per timed-out entry, in queue
/// order, each with its original sequence range and payload.
pub open spec fn resend_list(rtq: Seq<EntryModel>, s: StateModel, now: u64) -> Seq<OutSegModel>
    decreases rtq.len(),
{
    if rtq.len() == 0 {
        Seq::empty()
    } else {
        let rest = resend_list(rtq.drop_last(), s, now);
        if entry_timed_out(rtq.last(), now) {
            rest.push(seg_of_entry(rtq.last(), s))
        } else {
            rest
        }
    }
}

/// The timer transition at `now`. A TIME_WAIT connection past its quiescence
/// delay is purged to CLOSED. Otherwise, if any timed-out entry has used up
/// its retries the connection aborts: CLOSED, queue discarded, reset
/// surfaced, nothing sent. Otherwise every timed-out entry is resent
/// unchanged and its timer reset.
pub open spec fn tick(s: StateModel, now: u64) -> StepModel {
    if s.kind == TcpStateKind::TimeWait {
        if now >= s.wait_since + TIME_WAIT_TIMEOUT {
            StepModel {
                state: StateModel { kind: TcpStateKind::Closed, rtq: Seq::empty(), ..s },
                out: empty_output(),
            }
        } else {
            StepModel { state: s, out: empty_output() }
        }
    } else if exists|i: int| 0 <= i < s.rtq.len() && entry_exhausted(#[trigger] s.rtq[i], now) {
        StepModel {
            state: StateModel { kind: TcpStateKind::Closed, rtq: Seq::empty(), ..s },
            out: OutputModel {
                segments: Seq::empty(),
                delivered: None,
                eof: false,
                reset: Some(TcpProcessError::RetriesExhausted),
            },
        }
    } else {
        StepModel {
            state: StateModel { rtq: resent_queue(s.rtq, now), ..s },
            out: OutputModel {
                segments: resend_list(s.rtq, s, now),
                delivered: None,
                eof: false,
                reset: None,
            },
        }
    }
}

/// The FIN this stack sends on a local close of state `s`.
pub open spec fn fin_of(s: StateModel) -> OutSegModel {
    OutSegModel {
        seq_num: s.snd_nxt,
        ack_num: s.rcv_nxt,
        is_syn: false,
        is_ack: true,
        is_fin: true,
        is_rst: false,
        window: s.rcv_wnd,
        payload: Seq::empty(),
    }
}

/// The local-close transition: ESTABLISHED sends a FIN and moves to
/// FIN_WAIT_1, CLOSE_WAIT sends a FIN and moves to LAST_ACK; the FIN
/// consumes one sequence number. In any other state the request does
/// nothing. The FIN itself is not queued: only data-bearing segments are.
pub open spec fn close_step(s: StateModel) -> StepModel {
    if s.kind == TcpStateKind::Established || s.kind == TcpStateKind::CloseWait {
        let s2 = StateModel {
            kind: if s.kind == TcpStateKind::Established {
                TcpStateKind::FinWait1
            } else {
                TcpStateKind::LastAck
            },
            snd_nxt: seq_add_spec(s.snd_nxt, 1),
            ..s
        };
        StepModel {
            state: s2,
            out: OutputModel {
                segments: seq![fin_of(s)],
                delivered: None,
                eof: false,
                reset: None,
            },
        }
    } else {
        StepModel { state: s, out: empty_output() }
    }
}

/// The segment that carries freshly sent application data.
pub open spec fn data_seg_of(s: StateModel, data: Seq<u8>) -> OutSegModel {
    OutSegModel {
        seq_num: s.snd_nxt,
        ack_num: s.rcv_nxt,
        is_syn: false,
        is_ack: true,
        is_fin: false,
        is_rst: false,
        window: s.rcv_wnd,
        payload: data,
    }
}

/// A local send is accepted when the connection may still send (ESTABLISHED
/// or CLOSE_WAIT), the chunk is nonempty and fits one IPv4 datagram, and it
/// fits the peer's advertised window past the unacknowledged span.
pub open spec fn send_ok(s: StateModel, data: Seq<u8>) -> bool {
    &&& (s.kind == TcpStateKind::Established || s.kind == TcpStateKind::CloseWait)
    &&& 0 < data.len() <= 0xFFFF
    &&& seq_diff(s.snd_nxt, s.snd_una) + data.len() <= s.snd_wnd
}

/// The local-send transition: the chunk goes out as one segment carrying
/// SND.NXT, SND.NXT advances past it, and the segment joins the
/// retransmission queue with a fresh timestamp and zero retries.
pub open spec fn send_step(s: StateModel, data: Seq<u8>, now: u64) -> StepModel {
    let e = EntryModel { seq_num: s.snd_nxt, payload: data, sent_at: now, retries: 0 };
    let s2 = StateModel {
        snd_nxt: seq_add_spec(s.snd_nxt, data.len() as int),
        rtq: s.rtq.push(e),
        ..s
    };
    StepModel {
        state: s2,
        out: OutputModel {
            segments: seq![data_seg_of(s, data)],
            delivered: None,
            eof: false,
            reset: None,
        },
    }
}

// ---------------------------------------------------------------------------
// Executable state machine
// ---------------------------------------------------------------------------
/// An owned copy of a byte vector.
fn dup_bytes(v: &Vec<u8>) -> (r: Vec<u8>)
    ensures
        r@ == v@,
{
    slice_to_vec(v.as_slice())
}

fn dup_entry(e: &RetransEntry) -> (r: RetransEntry)
    ensures
        r@ == e@,
{
    RetransEntry {
        seq_num: e.seq_num,
        payload: dup_bytes(&e.payload),
        sent_at: e.sent_at,
        retries: e.retries,
    }
}

fn empty_out() -> (r: TcpOutput)
    ensures
        r@ == empty_output(),
{
    let r = TcpOutput { segments: Vec::new(), delivered: None, eof: false, reset: None };
    proof {
        assert(segs_view(r.segments@) =~= empty_output().segments);
    }
    r
}

/// The model of a pure acknowledgment built from these three variables.
pub open spec fn pure_ack_model(snd_nxt: u32, rcv_nxt: u32, rcv_wnd: u16) -> OutSegModel {
    OutSegModel {
        seq_num: snd_nxt,
        ack_num: rcv_nxt,
        is_syn: false,
        is_ack: true,
        is_fin: false,
        is_rst: false,
        window: rcv_wnd,
        payload: Seq::empty(),
    }
}

fn mk_ack(snd_nxt: u32, rcv_nxt: u32, rcv_wnd: u16) -> (r: OutSegment)
    ensures
        r@ == pure_ack_model(snd_nxt, rcv_nxt, rcv_wnd),
{
    let r = OutSegment {
        seq_num: snd_nxt,
        ack_num: rcv_nxt,
        is_syn: false,
        is_ack: true,
        is_fin: false,
        is_rst: false,
        window: rcv_wnd,
        payload: Vec::new(),
    };
    proof {
        assert(r.payload@ =~= Seq::<u8>::empty());
    }
    r
}

impl TcpState {
    pub open spec fn wf(self) -> bool {
        state_wf(self@)
    }

    /// A fresh passive-open connection, waiting for a SYN.
    pub fn listen() -> (r: TcpState)
        ensures
            r@ == listen_model(),
            r.wf(),
    {
        let r = TcpState {
            kind: TcpStateKind::Listen,
            snd_una: 0,
            snd_nxt: 0,
            snd_wnd: 0,
            rcv_nxt: 0,
            rcv_wnd: LOCAL_WINDOW,
            rtq: Vec::new(),
            wait_since: 0,
        };
        proof {
            assert(rtq_view(r.rtq@) =~= listen_model().rtq);
        }
        r
    }

    /// Consumes one inbound segment, already matched to this connection, and
    /// returns the successor state and everything the transition emitted,
    /// exactly as the transition function `step` describes. The payload
    /// bound is what an IPv4 datagram can carry.
    pub fn on_segment(self, seg: &TcpPacket, now: u64) -> (r: (TcpState, TcpOutput))
        requires
            self.wf(),
            seg@.data.len() <= 0xFFFF,
        ensures
            r.0@ == step(self@, seg@, now).state,
            r.1@ == step(self@, seg@, now).out,
            r.0.wf(),
    {
        let ghost sm = self@;
        let ghost gm = seg@;
        let TcpState { kind, snd_una, snd_nxt, snd_wnd, rcv_nxt, rcv_wnd, rtq, wait_since } =
            self;
        let mut kind = kind;
        let mut snd_una = snd_una;
        let mut snd_nxt = snd_nxt;
        let mut snd_wnd = snd_wnd;
        let mut rcv_nxt = rcv_nxt;
        let mut rcv_wnd = rcv_wnd;
        let mut rtq = rtq;
        let mut wait_since = wait_since;
        if kind == TcpStateKind::Closed {
            let st = TcpState { kind, snd_una, snd_nxt, snd_wnd, rcv_nxt, rcv_wnd, rtq, wait_since };
            return (st, empty_out());
        }
        if kind == TcpStateKind::Listen {
            if seg.is_rst || !seg.is_syn {
                let st = TcpState {
                    kind, snd_una, snd_nxt, snd_wnd, rcv_nxt, rcv_wnd, rtq, wait_since,
                };
                return (st, empty_out());
            }
            let new_rcv_nxt = seq_add(seg.seq_num, 1);
            let st = TcpState {
                kind: TcpStateKind::SynReceived,
                snd_una: INITIAL_SEND_SEQ,
                snd_nxt: seq_add(INITIAL_SEND_SEQ, 1),
                snd_wnd: seg.window_size,
                rcv_nxt: new_rcv_nxt,
                rcv_wnd: LOCAL_WINDOW,
                rtq,
                wait_since,
            };
            let mut segments: Vec<OutSegment> = Vec::new();
            let syn_ack = OutSegment {
                seq_num: INITIAL_SEND_SEQ,
                ack_num: new_rcv_nxt,
                is_syn: true,
                is_ack: true,
                is_fin: false,
                is_rst: false,
                window: LOCAL_WINDOW,
                payload: Vec::new(),
            };
            proof {
                assert(syn_ack.payload@ =~= Seq::<u8>::empty());
            }
            segments.push(syn_ack);
            let out = TcpOutput { segments, delivered: None, eof: false, reset: None };
            proof {
                assert(segs_view(out.segments@) =~= step(sm, gm, now).out.segments);
            }
            return (st, out);
        }
        if seg.is_rst {
            let st = TcpState {
                kind: TcpStateKind::Closed,
                snd_una,
                snd_nxt,
                snd_wnd,
                rcv_nxt,
                rcv_wnd,
                rtq: Vec::new(),
                wait_since,
            };
            let out = TcpOutput {
                segments: Vec::new(),
                delivered: None,
                eof: false,
                reset: Some(TcpProcessError::ConnectionReset),
            };
            proof {
                assert(rtq_view(st.rtq@) =~= Seq::<EntryModel>::empty());
                assert(segs_view(out.segments@) =~= Seq::<OutSegModel>::empty());
            }
            return (st, out);
        }
        if kind == TcpStateKind::SynSent {
            if seg.is_syn && seg.is_ack && seq_sub(seg.ack_num, snd_una) <= seq_sub(
                snd_nxt,
                snd_una,
            ) {
                let new_rcv_nxt = seq_add(seg.seq_num, 1);
                let st = TcpState {
                    kind: TcpStateKind::Established,
                    snd_una: seg.ack_num,
                    snd_nxt,
                    snd_wnd: seg.window_size,
                    rcv_nxt: new_rcv_nxt,
                    rcv_wnd,
                    rtq,
                    wait_since,
                };
                let mut segments: Vec<OutSegment> = Vec::new();
                segments.push(mk_ack(st.snd_nxt, st.rcv_nxt, st.rcv_wnd));
                let out = TcpOutput { segments, delivered: None, eof: false, reset: None };
                proof {
                    assert(segs_view(out.segments@) =~= step(sm, gm, now).out.segments);
                }
                return (st, out);
            }
            let st = TcpState { kind, snd_una, snd_nxt, snd_wnd, rcv_nxt, rcv_wnd, rtq, wait_since };
            return (st, empty_out());
        }
        // acceptability test
        let acceptable = (seg.data.len() == 0 && seg.seq_num == rcv_nxt) || seq_sub(
            seg.seq_num,
            rcv_nxt,
        ) < rcv_wnd as u32;
        if !acceptable || seg.is_syn {
            let st = TcpState { kind, snd_una, snd_nxt, snd_wnd, rcv_nxt, rcv_wnd, rtq, wait_since };
            let mut segments: Vec<OutSegment> = Vec::new();
            segments.push(mk_ack(st.snd_nxt, st.rcv_nxt, st.rcv_wnd));
            let out = TcpOutput { segments, delivered: None, eof: false, reset: None };
            proof {
                assert(segs_view(out.segments@) =~= step(sm, gm, now).out.segments);
            }
            return (st, out);
        }
        // a valid acknowledgment retires queue entries and advances SND.UNA
        if seg.is_ack && seq_sub(seg.ack_num, snd_una) <= seq_sub(snd_nxt, snd_una) {
            let fully_acked = seg.ack_num == snd_nxt;
            let ghost vm = rtq_view(rtq@);
            let mut rtq2: Vec<RetransEntry> = Vec::new();
            let mut i: usize = 0;
            proof {
                assert(vm.take(0) =~= Seq::<EntryModel>::empty());
                assert(rtq_view(rtq2@) =~= Seq::<EntryModel>::empty());
            }
            while i < rtq.len()
                invariant
                    i <= rtq.len(),
                    vm == rtq_view(rtq@),
                    vm.len() == rtq.len(),
                    forall|j: int|
                        0 <= j < vm.len() ==> 1 <= (#[trigger] vm[j]).payload.len() <= 0xFFFF,
                    rtq_view(rtq2@) == retired_queue(vm.take(i as int), snd_una, seg.ack_num),
                    forall|j: int|
                        0 <= j < rtq2@.len() ==> 1 <= (#[trigger] rtq2@[j]).payload@.len()
                            <= 0xFFFF,
                decreases rtq.len() - i,
            {
                let e = &rtq[i];
                proof {
                    assert(vm[i as int] == e@);
                    assert(e.payload@.len() <= 0xFFFF);
                }
                let end = seq_add(e.seq_num, e.payload.len() as u32);
                let keep = !(seq_sub(end, snd_una) <= seq_sub(seg.ack_num, snd_una));
                let ghost prev = rtq_view(rtq2@);
                if keep {
                    rtq2.push(dup_entry(e));
                }
                proof {
                    assert(vm.take(i + 1).drop_last() =~= vm.take(i as int));
                    assert(vm.take(i + 1).last() == vm[i as int]);
                    if keep {
                        assert(rtq_view(rtq2@) =~= prev.push(vm[i as int]));
                    }
                    assert(rtq_view(rtq2@) == retired_queue(vm.take(i + 1), snd_una, seg.ack_num));
                }
                i += 1;
            }
            proof {
                assert(vm.take(vm.len() as int) =~= vm);
            }
            rtq = rtq2;
            snd_una = seg.ack_num;
            snd_wnd = seg.window_size;
            if fully_acked {
                if kind == TcpStateKind::SynReceived {
                    kind = TcpStateKind::Established;
                } else if kind == TcpStateKind::FinWait1 {
                    kind = TcpStateKind::FinWait2;
                } else if kind == TcpStateKind::Closing {
                    kind = TcpStateKind::TimeWait;
                    wait_since = now;
                } else if kind == TcpStateKind::LastAck {
                    kind = TcpStateKind::Closed;
                    rtq = Vec::new();
                    proof {
                        assert(rtq_view(rtq@) =~= Seq::<EntryModel>::empty());
                    }
                }
            }
        }
        // in-order payload is delivered and RCV.NXT advances past it
        let can_recv = kind == TcpStateKind::Established || kind == TcpStateKind::FinWait1
            || kind == TcpStateKind::FinWait2;
        let deliver = seg.data.len() > 0 && seg.seq_num == rcv_nxt && can_recv;
        let mut delivered: Option<Vec<u8>> = None;
        if deliver {
            rcv_nxt = seq_add(rcv_nxt, seg.data.len() as u32);
            delivered = Some(dup_bytes(&seg.data));
        }
        // an in-order FIN consumes one sequence number and closes the stream
        let fin_ok = seg.is_fin && can_recv && (deliver || (seg.data.len() == 0 && seg.seq_num
            == rcv_nxt));
        if fin_ok {
            rcv_nxt = seq_add(rcv_nxt, 1);
            if kind == TcpStateKind::Established {
                kind = TcpStateKind::CloseWait;
            } else if kind == TcpStateKind::FinWait1 {
                if snd_una == snd_nxt {
                    kind = TcpStateKind::TimeWait;
                    wait_since = now;
                } else {
                    kind = TcpStateKind::Closing;
                }
            } else {
                kind = TcpStateKind::TimeWait;
                wait_since = now;
            }
        }
        let need_ack = deliver || fin_ok || seg.data.len() > 0;
        let mut segments: Vec<OutSegment> = Vec::new();
        if need_ack {
            segments.push(mk_ack(snd_nxt, rcv_nxt, rcv_wnd));
        }
        let st = TcpState { kind, snd_una, snd_nxt, snd_wnd, rcv_nxt, rcv_wnd, rtq, wait_since };
        let out = TcpOutput { segments, delivered, eof: fin_ok, reset: None };
        proof {
            let m = step(sm, gm, now);
            assert(segs_view(out.segments@) =~= m.out.segments);
            assert(st@ =~~= m.state);
            assert(out@ =~~= m.out);
        }
        (st, out)
    }

    /// Handles one timer tick at `now`, exactly as the transition function
    /// `tick` describes: TIME_WAIT purge, abort on an entry whose retries
    /// are used up, or resending of every timed-out entry unchanged.
    pub fn on_timer(self, now: u64) -> (r: (TcpState, TcpOutput))
        requires
            self.wf(),
        ensures
            r.0@ == tick(self@, now).state,
            r.1@ == tick(self@, now).out,
            r.0.wf(),
    {
        let ghost sm = self@;
        let TcpState { kind, snd_una, snd_nxt, snd_wnd, rcv_nxt, rcv_wnd, rtq, wait_since } =
            self;
        if kind == TcpStateKind::TimeWait {
            if wait_since <= now && now - wait_since >= TIME_WAIT_TIMEOUT {
                let st = TcpState {
                    kind: TcpStateKind::Closed,
                    snd_una,
                    snd_nxt,
                    snd_wnd,
                    rcv_nxt,
                    rcv_wnd,
                    rtq: Vec::new(),
                    wait_since,
                };
                proof {
                    assert(rtq_view(st.rtq@) =~= Seq::<EntryModel>::empty());
                }
                return (st, empty_out());
            }
            let st = TcpState { kind, snd_una, snd_nxt, snd_wnd, rcv_nxt, rcv_wnd, rtq, wait_since };
            return (st, empty_out());
        }
        let ghost vm = rtq_view(rtq@);
        // first pass: has any timed-out entry used up its retries?
        let mut exhausted = false;
        let mut i: usize = 0;
        while i < rtq.len()
            invariant
                i <= rtq.len(),
                vm == rtq_view(rtq@),
                vm.len() == rtq.len(),
                exhausted ==> exists|j: int|
                    0 <= j < vm.len() && entry_exhausted(#[trigger] vm[j], now),
                !exhausted ==> forall|j: int|
                    0 <= j < i ==> !entry_exhausted(#[trigger] vm[j], now),
            decreases rtq.len() - i,
        {
            let e = &rtq[i];
            proof {
                assert(vm[i as int] == e@);
            }
            let timed = e.sent_at <= now && now - e.sent_at >= RETRANSMIT_TIMEOUT;
            if timed && e.retries >= MAX_RETRIES {
                exhausted = true;
                proof {
                    assert(entry_exhausted(vm[i as int], now));
                }
            }
            i += 1;
        }
        if exhausted {
            let st = TcpState {
                kind: TcpStateKind::Closed,
                snd_una,
                snd_nxt,
                snd_wnd,
                rcv_nxt,
                rcv_wnd,
                rtq: Vec::new(),
                wait_since,
            };
            let out = TcpOutput {
                segments: Vec::new(),
                delivered: None,
                eof: false,
                reset: Some(TcpProcessError::RetriesExhausted),
            };
            proof {
                let j = choose|j: int| 0 <= j < vm.len() && entry_exhausted(vm[j], now);
                assert(entry_exhausted(sm.rtq[j], now));
                assert(exists|x: int|
                    0 <= x < sm.rtq.len() && entry_exhausted(#[trigger] sm.rtq[x], now));
                assert(rtq_view(st.rtq@) =~= Seq::<EntryModel>::empty());
                assert(segs_view(out.segments@) =~= Seq::<OutSegModel>::empty());
                let m = tick(sm, now);
                assert(st@ =~~= m.state);
                assert(out@ =~~= m.out);
            }
            return (st, out);
        }
        proof {
            assert(forall|j: int| 0 <= j < sm.rtq.len() ==> !entry_exhausted(
                #[trigger] sm.rtq[j],
                now,
            ));
        }
        // second pass: resend every timed-out entry unchanged, reset timers
        let mut rtq2: Vec<RetransEntry> = Vec::new();
        let mut segments: Vec<OutSegment> = Vec::new();
        let mut k: usize = 0;
        proof {
            assert(vm.take(0) =~= Seq::<EntryModel>::empty());
            assert(rtq_view(rtq2@) =~= Seq::<EntryModel>::empty());
            assert(segs_view(segments@) =~= Seq::<OutSegModel>::empty());
        }
        while k < rtq.len()
            invariant
                k <= rtq.len(),
                vm == rtq_view(rtq@),
                vm.len() == rtq.len(),
                sm.rtq == vm,
                sm.rcv_nxt == rcv_nxt,
                sm.rcv_wnd == rcv_wnd,
                forall|j: int|
                    0 <= j < vm.len() ==> 1 <= (#[trigger] vm[j]).payload.len() <= 0xFFFF,
                forall|j: int| 0 <= j < vm.len() ==> !entry_exhausted(#[trigger] vm[j], now),
                rtq_view(rtq2@) == resent_queue(vm.take(k as int), now),
                segs_view(segments@) == resend_list(vm.take(k as int), sm, now),
                forall|j: int|
                    0 <= j < rtq2@.len() ==> 1 <= (#[trigger] rtq2@[j]).payload@.len() <= 0xFFFF,
            decreases rtq.len() - k,
        {
            let e = &rtq[k];
            proof {
                assert(vm[k as int] == e@);
            }
            let timed = e.sent_at <= now && now - e.sent_at >= RETRANSMIT_TIMEOUT;
            let ghost prev_q = rtq_view(rtq2@);
            let ghost prev_s = segs_view(segments@);
            if timed {
                let seg = OutSegment {
                    seq_num: e.seq_num,
                    ack_num: rcv_nxt,
                    is_syn: false,
                    is_ack: true,
                    is_fin: false,
                    is_rst: false,
                    window: rcv_wnd,
                    payload: dup_bytes(&e.payload),
                };
                segments.push(seg);
                rtq2.push(
                    RetransEntry {
                        seq_num: e.seq_num,
                        payload: dup_bytes(&e.payload),
                        sent_at: now,
                        retries: e.retries + 1,
                    },
                );
                proof {
                    assert(rtq_view(rtq2@) =~= prev_q.push(resend_entry(vm[k as int], now)));
                    assert(segs_view(segments@) =~= prev_s.push(seg_of_entry(vm[k as int], sm)));
                }
            } else {
                rtq2.push(dup_entry(e));
                proof {
                    assert(rtq_view(rtq2@) =~= prev_q.push(vm[k as int]));
                }
            }
            proof {
                assert(vm.take(k + 1).drop_last() =~= vm.take(k as int));
                assert(vm.take(k + 1).last() == vm[k as int]);
                assert(rtq_view(rtq2@) == resent_queue(vm.take(k + 1), now));
                assert(segs_view(segments@) == resend_list(vm.take(k + 1), sm, now));
            }
            k += 1;
        }
        proof {
            assert(vm.take(vm.len() as int) =~= vm);
        }
        let st = TcpState {
            kind,
            snd_una,
            snd_nxt,
            snd_wnd,
            rcv_nxt,
            rcv_wnd,
            rtq: rtq2,
            wait_since,
        };
        let out = TcpOutput { segments, delivered: None, eof: false, reset: None };
        proof {
            let m = tick(sm, now);
            assert(st@ =~~= m.state);
            assert(out@ =~~= m.out);
        }
        (st, out)
    }

    /// Handles a local close request, exactly as `close_step` describes:
    /// ESTABLISHED and CLOSE_WAIT send a FIN and move on; elsewhere the
    /// request does nothing.
    pub fn close(self) -> (r: (TcpState, TcpOutput))
        requires
            self.wf(),
        ensures
            r.0@ == close_step(self@).state,
            r.1@ == close_step(self@).out,
            r.0.wf(),
    {
        let ghost sm = self@;
        if self.kind == TcpStateKind::Established || self.kind == TcpStateKind::CloseWait {
            let new_kind = if self.kind == TcpStateKind::Established {
                TcpStateKind::FinWait1
            } else {
                TcpStateKind::LastAck
            };
            let fin = OutSegment {
                seq_num: self.snd_nxt,
                ack_num: self.rcv_nxt,
                is_syn: false,
                is_ack: true,
                is_fin: true,
                is_rst: false,
                window: self.rcv_wnd,
                payload: Vec::new(),
            };
            proof {
                assert(fin.payload@ =~= Seq::<u8>::empty());
            }
            let new_snd_nxt = seq_add(self.snd_nxt, 1);
            let st = TcpState { kind: new_kind, snd_nxt: new_snd_nxt, ..self };
            let mut segments: Vec<OutSegment> = Vec::new();
            segments.push(fin);
            let out = TcpOutput { segments, delivered: None, eof: false, reset: None };
            proof {
                let m = close_step(sm);
                assert(segs_view(out.segments@) =~= m.out.segments);
                assert(st@ =~~= m.state);
                assert(out@ =~~= m.out);
            }
            (st, out)
        } else {
            (self, empty_out())
        }
    }

    /// Hands a chunk of application data to the connection. When
    /// `send_ok` admits it, the transition is exactly `send_step` and the
    /// output is returned; otherwise the state is unchanged and `None` says
    /// the chunk was refused.
    pub fn send(self, data: Vec<u8>, now: u64) -> (r: (TcpState, Option<TcpOutput>))
        requires
            self.wf(),
        ensures
            send_ok(self@, data@) ==> ({
                &&& r.0@ == send_step(self@, data@, now).state
                &&& r.1 matches Some(o) && o@ == send_step(self@, data@, now).out
            }),
            !send_ok(self@, data@) ==> r.0@ == self@ && r.1 is None,
            r.0.wf(),
    {
        let ghost sm = self@;
        let ok = (self.kind == TcpStateKind::Established || self.kind == TcpStateKind::CloseWait)
            && data.len() > 0 && data.len() <= 0xFFFF && seq_sub(self.snd_nxt, self.snd_una)
            as u64 + data.len() as u64 <= self.snd_wnd as u64;
        if ok {
            let TcpState { kind, snd_una, snd_nxt, snd_wnd, rcv_nxt, rcv_wnd, rtq, wait_since } =
                self;
            let mut rtq = rtq;
            let data_len = data.len();
            let entry = RetransEntry {
                seq_num: snd_nxt,
                payload: dup_bytes(&data),
                sent_at: now,
                retries: 0,
            };
            let ghost prev_q = rtq_view(rtq@);
            rtq.push(entry);
            let seg = OutSegment {
                seq_num: snd_nxt,
                ack_num: rcv_nxt,
                is_syn: false,
                is_ack: true,
                is_fin: false,
                is_rst: false,
                window: rcv_wnd,
                payload: data,
            };
            let mut segments: Vec<OutSegment> = Vec::new();
            segments.push(seg);
            let st = TcpState {
                kind,
                snd_una,
                snd_nxt: seq_add(snd_nxt, data_len as u32),
                snd_wnd,
                rcv_nxt,
                rcv_wnd,
                rtq,
                wait_since,
            };
            let out = TcpOutput { segments, delivered: None, eof: false, reset: None };
            proof {
                let m = send_step(sm, seg.payload@, now);
                assert(rtq_view(st.rtq@) =~= sm.rtq.push(
                    EntryModel { seq_num: sm.snd_nxt, payload: seg.payload@, sent_at: now, retries: 0 },
                ));
                assert(segs_view(out.segments@) =~= m.out.segments);
                assert(st@ =~~= m.state);
                assert(out@ =~~= m.out);
            }
            (st, Some(out))
        } else {
            (self, None)
        }
    }
}

// ---------------------------------------------------------------------------
// Connection identifier and connection table
// ---------------------------------------------------------------------------
/// Names one TCP connection by its directional four-tuple: the local
/// endpoint (`src`), then the remote endpoint (`dst`). Two identifiers with
/// the endpoints swapped name the same logical connection but are distinct
/// table keys; inbound lookups build the identifier from the (destination,
/// source) of the received segment.
#[derive(Debug, Clone, Copy, PartialEq, Eq, PartialOrd, Ord, Hash, Structural)]
pub struct TcpConnectionIdent {
    pub src_addr: Ipv4Addr,
    pub src_port: u16,
    pub dst_addr: Ipv4Addr,
    pub dst_port: u16,
}

/// The identifier an inbound segment selects: the datagram's destination and
/// the segment's destination port are the local endpoint.
pub open spec fn spec_inbound_ident(
    src_addr: Ipv4Addr,
    dst_addr: Ipv4Addr,
    g: TcpPacketModel,
) -> TcpConnectionIdent {
    TcpConnectionIdent {
        src_addr: dst_addr,
        src_port: g.dst_port,
        dst_addr: src_addr,
        dst_port: g.src_port,
    }
}

impl TcpConnectionIdent {
    pub fn new(src_addr: Ipv4Addr, src_port: u16, dst_addr: Ipv4Addr, dst_port: u16) -> (r:
        TcpConnectionIdent)
        ensures
            r == (TcpConnectionIdent { src_addr, src_port, dst_addr, dst_port }),
    {
        TcpConnectionIdent { src_addr, src_port, dst_addr, dst_port }
    }

    /// The identifier to look up for a segment received in a datagram from
    /// `src_addr` to `dst_addr`.
    pub fn inbound(src_addr: Ipv4Addr, dst_addr: Ipv4Addr, seg: &TcpPacket) -> (r:
        TcpConnectionIdent)
        ensures
            r == spec_inbound_ident(src_addr, dst_addr, seg@),
    {
        TcpConnectionIdent {
            src_addr: dst_addr,
            src_port: seg.dst_port,
            dst_addr: src_addr,
            dst_port: seg.src_port,
        }
    }
}

/// The map a sequence of table entries denotes; later entries would shadow
/// earlier ones, but the table keeps identifiers unique.
pub open spec fn table_view(s: Seq<(TcpConnectionIdent, TcpState)>) -> Map<
    TcpConnectionIdent,
    StateModel,
>
    decreases s.len(),
{
    if s.len() == 0 {
        Map::empty()
    } else {
        table_view(s.drop_last()).insert(s.last().0, s.last().1@)
    }
}

pub open spec fn idents_unique(s: Seq<(TcpConnectionIdent, TcpState)>) -> bool {
    forall|i: int, j: int| 0 <= i < j < s.len() ==> (#[trigger] s[i]).0 != (#[trigger] s[j]).0
}

pub open spec fn states_ok(s: Seq<(TcpConnectionIdent, TcpState)>) -> bool {
    forall|i: int|
        0 <= i < s.len() ==> state_wf((#[trigger] s[i]).1@) && s[i].1@.kind
            != TcpStateKind::Closed
}

proof fn lemma_tv_contains(s: Seq<(TcpConnectionIdent, TcpState)>, id: TcpConnectionIdent)
    ensures
        table_view(s).contains_key(id) <==> (exists|i: int|
            0 <= i < s.len() && (#[trigger] s[i]).0 == id),
    decreases s.len(),
{
    if s.len() == 0 {
    } else {
        lemma_tv_contains(s.drop_last(), id);
        if table_view(s).contains_key(id) {
            if id == s.last().0 {
                assert(s[s.len() - 1].0 == id);
            } else {
                let i = choose|i: int| 0 <= i < s.drop_last().len() && s.drop_last()[i].0 == id;
                assert(s[i].0 == id);
            }
        }
        if exists|i: int| 0 <= i < s.len() && (#[trigger] s[i]).0 == id {
            let i = choose|i: int| 0 <= i < s.len() && (#[trigger] s[i]).0 == id;
            if i < s.len() - 1 {
                assert(s.drop_last()[i].0 == id);
            }
        }
    }
}

proof fn lemma_tv_get(s: Seq<(TcpConnectionIdent, TcpState)>, i: int)
    requires
        0 <= i < s.len(),
        idents_unique(s),
    ensures
        table_view(s).contains_key(s[i].0),
        table_view(s)[s[i].0] == s[i].1@,
    decreases s.len(),
{
    if i == s.len() - 1 {
    } else {
        assert(idents_unique(s.drop_last())) by {
            assert(forall|x: int, y: int|
                0 <= x < y < s.drop_last().len() ==> (#[trigger] s.drop_last()[x]).0 != (
                #[trigger] s.drop_last()[y]).0) by {
                assert(forall|x: int|
                    0 <= x < s.drop_last().len() ==> #[trigger] s.drop_last()[x] == s[x]);
            }
        }
        assert(s.drop_last()[i] == s[i]);
        lemma_tv_get(s.drop_last(), i);
        assert(s[i].0 != s.last().0);
    }
}

proof fn lemma_tv_push(s: Seq<(TcpConnectionIdent, TcpState)>, p: (TcpConnectionIdent, TcpState))
    ensures
        table_view(s.push(p)) == table_view(s).insert(p.0, p.1@),
{
    assert(s.push(p).drop_last() =~= s);
    assert(s.push(p).last() == p);
}

proof fn lemma_entries_remove(s: Seq<(TcpConnectionIdent, TcpState)>, i: int)
    requires
        0 <= i < s.len(),
        idents_unique(s),
        states_ok(s),
    ensures
        idents_unique(s.remove(i)),
        states_ok(s.remove(i)),
        forall|j: int| 0 <= j < s.remove(i).len() ==> (#[trigger] s.remove(i)[j]).0 != s[i].0,
{
    s.remove_ensures(i);
    assert(forall|j: int|
        0 <= j < s.remove(i).len() ==> #[trigger] s.remove(i)[j] == (if j < i {
            s[j]
        } else {
            s[j + 1]
        }));
}

proof fn lemma_tv_remove(s: Seq<(TcpConnectionIdent, TcpState)>, i: int)
    requires
        0 <= i < s.len(),
        idents_unique(s),
    ensures
        table_view(s.remove(i)) == table_view(s).remove(s[i].0),
    decreases s.len(),
{
    let id = s[i].0;
    let dl = s.drop_last();
    assert(idents_unique(dl)) by {
        assert(forall|x: int| 0 <= x < dl.len() ==> #[trigger] dl[x] == s[x]);
    }
    lemma_tv_contains(dl, id);
    if i == s.len() - 1 {
        assert(s.remove(i) =~= dl);
        assert(forall|j: int| 0 <= j < dl.len() ==> (#[trigger] dl[j]).0 != id);
        assert(!table_view(dl).contains_key(id));
        assert(table_view(s).remove(id) =~= table_view(dl));
    } else {
        lemma_tv_remove(dl, i);
        assert(dl[i] == s[i]);
        assert(s.remove(i).drop_last() =~= dl.remove(i));
        assert(s.remove(i).last() == s.last());
        assert(s.remove(i).len() > 0);
        assert(table_view(s.remove(i)) == table_view(dl.remove(i)).insert(
            s.last().0,
            s.last().1@,
        ));
        assert(id != s.last().0);
        assert(table_view(s.remove(i)) =~= table_view(s).remove(id));
    }
}

/// The connection table: the single owner of every connection's state,
/// keyed by the directional four-tuple. Entries are created by an inbound
/// SYN (passive open) and removed when a connection reaches CLOSED. Its view
/// is the map from identifiers to connection-state models.
pub struct TcpConnections {
    conns: Vec<(TcpConnectionIdent, TcpState)>,
}

impl View for TcpConnections {
    type V = Map<TcpConnectionIdent, StateModel>;

    closed spec fn view(&self) -> Map<TcpConnectionIdent, StateModel> {
        table_view(self.conns@)
    }
}

impl TcpConnections {
    /// Identifiers are pairwise distinct, every stored state is well formed,
    /// and no stored connection is CLOSED.
    pub closed spec fn wf(self) -> bool {
        idents_unique(self.conns@) && states_ok(self.conns@)
    }

    /// An empty table.
    pub fn new() -> (r: TcpConnections)
        ensures
            r@ == Map::<TcpConnectionIdent, StateModel>::empty(),
            r.wf(),
    {
        let r = TcpConnections { conns: Vec::new() };
        proof {
            assert(r.conns@.len() == 0);
        }
        r
    }

    fn find(&self, id: &TcpConnectionIdent) -> (r: Option<usize>)
        ensures
            r matches Some(i) ==> 0 <= i < self.conns@.len() && self.conns@[i as int].0 == *id,
            r is None ==> forall|i: int|
                0 <= i < self.conns@.len() ==> (#[trigger] self.conns@[i]).0 != *id,
    {
        let mut i: usize = 0;
        while i < self.conns.len()
            invariant
                i <= self.conns@.len(),
                forall|j: int| 0 <= j < i ==> (#[trigger] self.conns@[j]).0 != *id,
            decreases self.conns@.len() - i,
        {
            let pair = &self.conns[i];
            if pair.0 == *id {
                return Some(i);
            }
            i += 1;
        }
        None
    }

    /// The state stored for `id`, if any.
    pub fn get(&self, id: &TcpConnectionIdent) -> (r: Option<&TcpState>)
        requires
            self.wf(),
        ensures
            self@.contains_key(*id) ==> (r matches Some(st) && st@ == self@[*id]),
            !self@.contains_key(*id) ==> r is None,
    {
        proof {
            lemma_tv_contains(self.conns@, *id);
        }
        match self.find(id) {
            Some(i) => {
                proof {
                    lemma_tv_get(self.conns@, i as int);
                }
                Some(&self.conns[i].1)
            },
            None => None,
        }
    }

    /// Routes one inbound segment, received in a datagram from `src_addr`
    /// to `dst_addr`, to its connection and runs the state machine on it.
    /// A known identifier transitions by `step` from its stored state; an
    /// unknown one is given a fresh listening state when — and only when —
    /// the segment is a SYN (passive open), and anything else for an unknown
    /// connection is dropped without output. The entry is removed as soon as
    /// the successor state is CLOSED.
    pub fn process_packet(
        &mut self,
        src_addr: Ipv4Addr,
        dst_addr: Ipv4Addr,
        seg: &TcpPacket,
        now: u64,
    ) -> (r: TcpOutput)
        requires
            old(self).wf(),
            seg@.data.len() <= 0xFFFF,
        ensures
            final(self).wf(),
            ({
                let id = spec_inbound_ident(src_addr, dst_addr, seg@);
                let known = old(self)@.contains_key(id);
                let prior = if known {
                    old(self)@[id]
                } else {
                    listen_model()
                };
                let m = step(prior, seg@, now);
                if known || (seg@.is_syn && !seg@.is_rst) {
                    &&& r@ == m.out
                    &&& final(self)@ == (if m.state.kind == TcpStateKind::Closed {
                        old(self)@.remove(id)
                    } else {
                        old(self)@.insert(id, m.state)
                    })
                } else {
                    &&& final(self)@ == old(self)@
                    &&& r@ == empty_output()
                }
            }),
    {
        let id = TcpConnectionIdent::inbound(src_addr, dst_addr, seg);
        proof {
            lemma_tv_contains(self.conns@, id);
        }
        match self.find(&id) {
            Some(i) => {
                let ghost entries = self.conns@;
                proof {
                    lemma_tv_get(entries, i as int);
                    lemma_tv_remove(entries, i as int);
                    lemma_entries_remove(entries, i as int);
                }
                let (ident, st) = self.conns.remove(i);
                let (st2, out) = st.on_segment(seg, now);
                if st2.kind != TcpStateKind::Closed {
                    let ghost removed = self.conns@;
                    proof {
                        lemma_tv_push(removed, (ident, st2));
                    }
                    self.conns.push((ident, st2));
                    proof {
                        assert(final(self)@ =~= old(self)@.insert(id, st2@));
                    }
                }
                out
            },
            None => {
                if seg.is_syn && !seg.is_rst {
                    let st = TcpState::listen();
                    let (st2, out) = st.on_segment(seg, now);
                    let ghost entries = self.conns@;
                    proof {
                        lemma_tv_push(entries, (id, st2));
                    }
                    self.conns.push((id, st2));
                    out
                } else {
                    empty_out()
                }
            },
        }
    }

    /// Delivers one timer tick at `now` to the connection named `id`, as the
    /// transition function `tick` describes; the entry is removed as soon as
    /// the successor state is CLOSED (retry exhaustion or TIME_WAIT purge).
    /// `None` says no such connection exists.
    pub fn on_timer(&mut self, id: &TcpConnectionIdent, now: u64) -> (r: Option<TcpOutput>)
        requires
            old(self).wf(),
        ensures
            final(self).wf(),
            ({
                let known = old(self)@.contains_key(*id);
                let m = tick(old(self)@[*id], now);
                if known {
                    &&& r matches Some(o) && o@ == m.out
                    &&& final(self)@ == (if m.state.kind == TcpStateKind::Closed {
                        old(self)@.remove(*id)
                    } else {
                        old(self)@.insert(*id, m.state)
                    })
                } else {
                    &&& r is None
                    &&& final(self)@ == old(self)@
                }
            }),
    {
        proof {
            lemma_tv_contains(self.conns@, *id);
        }
        match self.find(id) {
            Some(i) => {
                let ghost entries = self.conns@;
                proof {
                    lemma_tv_get(entries, i as int);
                    lemma_tv_remove(entries, i as int);
                    lemma_entries_remove(entries, i as int);
                }
                let (ident, st) = self.conns.remove(i);
                let (st2, out) = st.on_timer(now);
                if st2.kind != TcpStateKind::Closed {
                    let ghost removed = self.conns@;
                    proof {
                        lemma_tv_push(removed, (ident, st2));
                    }
                    self.conns.push((ident, st2));
                    proof {
                        assert(final(self)@ =~= old(self)@.insert(*id, st2@));
                    }
                }
                Some(out)
            },
            None => None,
        }
    }

    /// Requests a local close of the connection named `id`, as `close_step`
    /// describes. `None` says no such connection exists.
    pub fn close(&mut self, id: &TcpConnectionIdent) -> (r: Option<TcpOutput>)
        requires
            old(self).wf(),
        ensures
            final(self).wf(),
            ({
                let known = old(self)@.contains_key(*id);
                let m = close_step(old(self)@[*id]);
                if known {
                    &&& r matches Some(o) && o@ == m.out
                    &&& final(self)@ == old(self)@.insert(*id, m.state)
                } else {
                    &&& r is None
                    &&& final(self)@ == old(self)@
                }
            }),
    {
        proof {
            lemma_tv_contains(self.conns@, *id);
        }
        match self.find(id) {
            Some(i) => {
                let ghost entries = self.conns@;
                proof {
                    lemma_tv_get(entries, i as int);
                    lemma_tv_remove(entries, i as int);
                    lemma_entries_remove(entries, i as int);
                }
                let (ident, st) = self.conns.remove(i);
                let (st2, out) = st.close();
                let ghost removed = self.conns@;
                proof {
                    lemma_tv_push(removed, (ident, st2));
                }
                self.conns.push((ident, st2));
                proof {
                    assert(final(self)@ =~= old(self)@.insert(*id, st2@));
                }
                Some(out)
            },
            None => None,
        }
    }

    /// Hands a chunk of application data to the connection named `id`, as
    /// `send_step` describes. `None` says there is no such connection or the
    /// chunk was refused (see `send_ok`); the state is then unchanged.
    pub fn send(&mut self, id: &TcpConnectionIdent, data: Vec<u8>, now: u64) -> (r: Option<
        TcpOutput,
    >)
        requires
            old(self).wf(),
        ensures
            final(self).wf(),
            ({
                let known = old(self)@.contains_key(*id);
                let m = send_step(old(self)@[*id], data@, now);
                if known && send_ok(old(self)@[*id], data@) {
                    &&& r matches Some(o) && o@ == m.out
                    &&& final(self)@ == old(self)@.insert(*id, m.state)
                } else {
                    &&& r is None
                    &&& final(self)@ == old(self)@
                }
            }),
    {
        proof {
            lemma_tv_contains(self.conns@, *id);
        }
        match self.find(id) {
            Some(i) => {
                let ghost entries = self.conns@;
                proof {
                    lemma_tv_get(entries, i as int);
                    lemma_tv_remove(entries, i as int);
                    lemma_entries_remove(entries, i as int);
                }
                let (ident, st) = self.conns.remove(i);
                let (st2, out) = st.send(data, now);
                let ghost removed = self.conns@;
                proof {
                    lemma_tv_push(removed, (ident, st2));
                }
                self.conns.push((ident, st2));
                proof {
                    if !send_ok(old(self)@[*id], data@) {
                        assert(final(self)@ =~= old(self)@);
                    } else {
                        assert(final(self)@ =~= old(self)@.insert(*id, st2@));
                    }
                }
                out
            },
            None => None,
        }
    }

    /// Drops the entry for `id`, if present.
    pub fn remove(&mut self, id: &TcpConnectionIdent)
        requires
            old(self).wf(),
        ensures
            final(self).wf(),
            final(self)@ == old(self)@.remove(*id),
    {
        proof {
            lemma_tv_contains(self.conns@, *id);
        }
        match self.find(id) {
            Some(i) => {
                proof {
                    lemma_tv_remove(self.conns@, i as int);
                    lemma_entries_remove(self.conns@, i as int);
                }
                let _ = self.conns.remove(i);
            },
            None => {
                proof {
                    assert(old(self)@.remove(*id) =~= old(self)@);
                }
            },
        }
    }
}

// ---------------------------------------------------------------------------
// Protocol laws
// ---------------------------------------------------------------------------
/// A TCP header with any reserved bit set is malformed, whatever else it
/// holds: the decoder never yields a partially populated segment for it.
pub proof fn lemma_tcp_reserved_bits_malformed(b: Seq<u8>)
    requires
        b.len() >= 20,
        b[12] & 0x0F != 0 || b[13] >> 6 != 0,
    ensures
        spec_tcp_err(b) == Some(NetParseError::MalformedPacket),
{
}

/// CLOSED consumes events without reacting: no transition, no output.
pub proof fn lemma_closed_inert(s: StateModel, g: TcpPacketModel, now: u64)
    requires
        s.kind == TcpStateKind::Closed,
    ensures
        step(s, g, now).state == s,
        step(s, g, now).out == empty_output(),
{
}

/// An RST in any synchronized state (every state but CLOSED and LISTEN)
/// aborts the connection at once: CLOSED, the retransmission queue
/// discarded, nothing transmitted, and the reset surfaced — with no data
/// and no end-of-stream beside it.
pub proof fn lemma_reset_aborts(s: StateModel, g: TcpPacketModel, now: u64)
    requires
        is_synchronized(s.kind),
        g.is_rst,
    ensures
        step(s, g, now).state.kind == TcpStateKind::Closed,
        step(s, g, now).state.rtq.len() == 0,
        step(s, g, now).out.segments.len() == 0,
        step(s, g, now).out.reset == Some(TcpProcessError::ConnectionReset),
        step(s, g, now).out.delivered is None,
        !step(s, g, now).out.eof,
{
}

/// The reset notification is delivered at most once: the aborted connection
/// is CLOSED, and CLOSED reacts to nothing further.
pub proof fn lemma_reset_at_most_once(
    s: StateModel,
    g: TcpPacketModel,
    now: u64,
    g2: TcpPacketModel,
    now2: u64,
)
    requires
        is_synchronized(s.kind),
        g.is_rst,
    ensures
        step(step(s, g, now).state, g2, now2).out.reset is None,
{
    lemma_reset_aborts(s, g, now);
}

/// End of stream is surfaced at most once: a transition that delivers it
/// leaves a state in which no further segment can deliver one.
pub proof fn lemma_eof_at_most_once(
    s: StateModel,
    g: TcpPacketModel,
    now: u64,
    g2: TcpPacketModel,
    now2: u64,
)
    requires
        step(s, g, now).out.eof,
    ensures
        !step(step(s, g, now).state, g2, now2).out.eof,
{
}

/// The three-way handshake: a SYN arriving on a listening connection is
/// answered with a SYN+ACK whose acknowledgment is one past the SYN's
/// sequence number and whose sequence number is the initial send sequence,
/// and the connection enters SYN_RECEIVED; a plain ACK of that SYN+ACK then
/// establishes the connection.
pub proof fn lemma_handshake(g_syn: TcpPacketModel, g_ack: TcpPacketModel, now: u64, now2: u64)
    requires
        g_syn.is_syn && !g_syn.is_rst,
        g_ack.is_ack && !g_ack.is_rst && !g_ack.is_syn && !g_ack.is_fin,
        g_ack.data.len() == 0,
        g_ack.seq_num == seq_add_spec(g_syn.seq_num, 1),
        g_ack.ack_num == seq_add_spec(INITIAL_SEND_SEQ, 1),
    ensures
        ({
            let m1 = step(listen_model(), g_syn, now);
            &&& m1.state.kind == TcpStateKind::SynReceived
            &&& m1.out.segments.len() == 1
            &&& m1.out.segments[0].is_syn
            &&& m1.out.segments[0].is_ack
            &&& m1.out.segments[0].seq_num == INITIAL_SEND_SEQ
            &&& m1.out.segments[0].ack_num == seq_add_spec(g_syn.seq_num, 1)
            &&& step(m1.state, g_ack, now2).state.kind == TcpStateKind::Established
        }),
{
    let m1 = step(listen_model(), g_syn, now);
    assert(seq_add_spec(INITIAL_SEND_SEQ, 1) == 0x1001u32) by {
        lemma_small_mod(0x1001nat, 0x1_0000_0000nat);
    }
    assert(seq_diff(0x1001u32, 0x1000u32) == 1) by {
        lemma_small_mod(1nat, 0x1_0000_0000nat);
    }
    assert(ack_valid(m1.state, g_ack.ack_num));
}

proof fn lemma_resent_queue_len(rtq: Seq<EntryModel>, now: u64)
    ensures
        resent_queue(rtq, now).len() == rtq.len(),
    decreases rtq.len(),
{
    if rtq.len() > 0 {
        lemma_resent_queue_len(rtq.drop_last(), now);
    }
}

proof fn lemma_resent_queue_index(rtq: Seq<EntryModel>, now: u64, i: int)
    requires
        0 <= i < rtq.len(),
    ensures
        resent_queue(rtq, now).len() == rtq.len(),
        resent_queue(rtq, now)[i] == (if entry_timed_out(rtq[i], now) {
            resend_entry(rtq[i], now)
        } else {
            rtq[i]
        }),
    decreases rtq.len(),
{
    lemma_resent_queue_len(rtq, now);
    if i == rtq.len() - 1 {
        lemma_resent_queue_len(rtq.drop_last(), now);
    } else {
        lemma_resent_queue_index(rtq.drop_last(), now, i);
        assert(rtq.drop_last()[i] == rtq[i]);
    }
}

proof fn lemma_resend_list_contains(rtq: Seq<EntryModel>, s: StateModel, now: u64, i: int)
    requires
        0 <= i < rtq.len(),
        entry_timed_out(rtq[i], now),
    ensures
        resend_list(rtq, s, now).contains(seg_of_entry(rtq[i], s)),
    decreases rtq.len(),
{
    let l = resend_list(rtq, s, now);
    if i == rtq.len() - 1 {
        assert(l.last() == seg_of_entry(rtq[i], s));
        assert(l[l.len() - 1] == seg_of_entry(rtq[i], s));
    } else {
        lemma_resend_list_contains(rtq.drop_last(), s, now, i);
        assert(rtq.drop_last()[i] == rtq[i]);
        let rest = resend_list(rtq.drop_last(), s, now);
        let j = choose|j: int| 0 <= j < rest.len() && rest[j] == seg_of_entry(rtq[i], s);
        assert(l[j] == seg_of_entry(rtq[i], s));
    }
}

/// A queue entry whose timer has expired — on a connection where no entry
/// has used up its retries — is resent with identical sequence number and
/// payload; its timer is reset to `now` and its retry count grows by one,
/// while entries not timed out are untouched.
pub proof fn lemma_retransmit_identical(s: StateModel, now: u64, i: int)
    requires
        s.kind != TcpStateKind::TimeWait,
        0 <= i < s.rtq.len(),
        forall|j: int| 0 <= j < s.rtq.len() ==> !entry_exhausted(#[trigger] s.rtq[j], now),
        entry_timed_out(s.rtq[i], now),
    ensures
        tick(s, now).state.rtq.len() == s.rtq.len(),
        tick(s, now).state.rtq[i].seq_num == s.rtq[i].seq_num,
        tick(s, now).state.rtq[i].payload == s.rtq[i].payload,
        tick(s, now).state.rtq[i].sent_at == now,
        tick(s, now).state.rtq[i].retries == s.rtq[i].retries + 1,
        tick(s, now).out.segments.contains(seg_of_entry(s.rtq[i], s)),
        tick(s, now).out.reset is None,
{
    lemma_resent_queue_index(s.rtq, now, i);
    lemma_resend_list_contains(s.rtq, s, now, i);
}

/// After the bounded retry count is used up, a further timeout aborts the
/// connection rather than resending again: CLOSED, queue discarded, reset
/// surfaced, nothing transmitted.
pub proof fn lemma_retry_exhaustion_aborts(s: StateModel, now: u64, i: int)
    requires
        s.kind != TcpStateKind::TimeWait,
        0 <= i < s.rtq.len(),
        entry_exhausted(s.rtq[i], now),
    ensures
        tick(s, now).state.kind == TcpStateKind::Closed,
        tick(s, now).state.rtq.len() == 0,
        tick(s, now).out.segments.len() == 0,
        tick(s, now).out.reset == Some(TcpProcessError::RetriesExhausted),
{
    assert(exists|j: int| 0 <= j < s.rtq.len() && entry_exhausted(#[trigger] s.rtq[j], now));
}

proof fn lemma_retired_queue_all_below(rtq: Seq<EntryModel>, una: u32, ackno: u32)
    requires
        forall|i: int| 0 <= i < rtq.len() ==> entry_retired(#[trigger] rtq[i], una, ackno),
    ensures
        retired_queue(rtq, una, ackno).len() == 0,
    decreases rtq.len(),
{
    if rtq.len() > 0 {
        assert(forall|i: int|
            0 <= i < rtq.drop_last().len() ==> entry_retired(
                #[trigger] rtq.drop_last()[i],
                una,
                ackno,
            )) by {
            assert(forall|i: int|
                0 <= i < rtq.drop_last().len() ==> #[trigger] rtq.drop_last()[i] == rtq[i]);
        }
        lemma_retired_queue_all_below(rtq.drop_last(), una, ackno);
        assert(entry_retired(rtq[rtq.len() - 1], una, ackno));
    }
}

/// A pure, in-order, valid acknowledgment in any synchronized state past
/// the opening handshake advances SND.UNA to the acknowledgment number
/// while SND.NXT and RCV.NXT stand; SND.UNA stays at or below SND.NXT in
/// the wrapped order, the unacknowledged span shrinking by exactly the
/// acknowledged distance; and the queue keeps precisely the entries whose
/// range is not wholly below the acknowledgment — when every entry is
/// covered, the queue empties. All of it holds across the 2^32 boundary
/// (e.g. SND.UNA 0xFFFFFFF0 acknowledged at 0x00000010).
pub proof fn lemma_ack_advances_una(s: StateModel, g: TcpPacketModel, now: u64)
    requires
        is_synchronized(s.kind),
        s.kind != TcpStateKind::SynSent,
        g.is_ack && !g.is_rst && !g.is_syn && !g.is_fin,
        g.data.len() == 0,
        g.seq_num == s.rcv_nxt,
        ack_valid(s, g.ack_num),
    ensures
        step(s, g, now).state.snd_una == g.ack_num,
        step(s, g, now).state.snd_nxt == s.snd_nxt,
        step(s, g, now).state.rcv_nxt == s.rcv_nxt,
        seq_diff(s.snd_nxt, g.ack_num) == seq_diff(s.snd_nxt, s.snd_una) - seq_diff(
            g.ack_num,
            s.snd_una,
        ),
        kind_after_ack(s.kind, g.ack_num == s.snd_nxt) != TcpStateKind::Closed
            ==> step(s, g, now).state.rtq == retired_queue(s.rtq, s.snd_una, g.ack_num),
        (forall|i: int|
            0 <= i < s.rtq.len() ==> entry_retired(#[trigger] s.rtq[i], s.snd_una, g.ack_num))
            ==> step(s, g, now).state.rtq.len() == 0,
{
    lemma_mod_division_less_than_divisor(s.snd_nxt - s.snd_una, 0x1_0000_0000);
    lemma_sub_mod_noop(s.snd_nxt - s.snd_una, g.ack_num - s.snd_una, 0x1_0000_0000);
    lemma_small_mod(
        (seq_diff(s.snd_nxt, s.snd_una) - seq_diff(g.ack_num, s.snd_una)) as nat,
        0x1_0000_0000 as nat,
    );
    if forall|i: int|
        0 <= i < s.rtq.len() ==> entry_retired(#[trigger] s.rtq[i], s.snd_una, g.ack_num) {
        lemma_retired_queue_all_below(s.rtq, s.snd_una, g.ack_num);
    }
}

/// In wrapping sequence space the computed distance equals the true
/// distance whenever the true distance is less than one full turn of the
/// 2^32 space — also when the two positions straddle the wraparound
/// boundary.
pub proof fn lemma_seq_diff_exact(a: int, b: int)
    requires
        0 <= b <= a,
        a - b < 0x1_0000_0000,
    ensures
        seq_diff((a % 0x1_0000_0000) as u32, (b % 0x1_0000_0000) as u32) == a - b,
{
    lemma_mod_division_less_than_divisor(a, 0x1_0000_0000);
    lemma_mod_division_less_than_divisor(b, 0x1_0000_0000);
    lemma_sub_mod_noop(a, b, 0x1_0000_0000);
    lemma_small_mod((a - b) as nat, 0x1_0000_0000 as nat);
}

/// Acknowledgment retirement survives wraparound: with true sequence
/// positions `una <= endpos` and `una <= ackno`, each within one window
/// turn of `una`, the wrapped comparison "the range end lies at or below
/// the acknowledgment" agrees with the unbounded one (e.g. SND.UNA
/// 0xFFFFFFF0 with an incoming acknowledgment at true position past 2^32,
/// wire value 0x00000010).
pub proof fn lemma_ack_retirement_wraparound(una: int, endpos: int, ackno: int)
    requires
        0 <= una <= endpos,
        una <= ackno,
        endpos - una < 0x1_0000_0000,
        ackno - una < 0x1_0000_0000,
    ensures
        (seq_diff((endpos % 0x1_0000_0000) as u32, (una % 0x1_0000_0000) as u32) <= seq_diff(
            (ackno % 0x1_0000_0000) as u32,
            (una % 0x1_0000_0000) as u32,
        )) <==> endpos <= ackno,
{
    lemma_seq_diff_exact(endpos, una);
    lemma_seq_diff_exact(ackno, una);
}

/// The window-acceptability comparison survives wraparound likewise.
pub proof fn lemma_acceptability_wraparound(seqpos: int, nxt: int, wnd: u16)
    requires
        0 <= nxt <= seqpos,
        seqpos - nxt < 0x1_0000_0000,
    ensures
        (seq_diff((seqpos % 0x1_0000_0000) as u32, (nxt % 0x1_0000_0000) as u32) < wnd)
            <==> (seqpos < nxt + wnd),
{
    lemma_seq_diff_exact(seqpos, nxt);
}

} // verus!
