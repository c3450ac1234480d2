use netstack::ip::Ipv4Addr;
use netstack::tcp::{
    seq_add, seq_sub, TcpConnectionIdent, TcpConnections, TcpPacket, TcpProcessError, TcpState,
    TcpStateKind, INITIAL_SEND_SEQ, MAX_RETRIES, RETRANSMIT_TIMEOUT, TIME_WAIT_TIMEOUT,
};

fn seg(seq: u32, ack: u32, syn: bool, is_ack: bool, fin: bool, rst: bool, data: Vec<u8>) -> TcpPacket {
    TcpPacket {
        src_port: 1000,
        dst_port: 80,
        seq_num: seq,
        ack_num: ack,
        is_ack,
        is_psh: false,
        is_rst: rst,
        is_syn: syn,
        is_fin: fin,
        urg_pointer: None,
        window_size: 0x4000,
        data,
    }
}

fn state(kind: TcpStateKind, snd: u32, rcv: u32) -> TcpState {
    TcpState {
        kind,
        snd_una: snd,
        snd_nxt: snd,
        snd_wnd: 0x4000,
        rcv_nxt: rcv,
        rcv_wnd: 0x4000,
        rtq: vec![],
        wait_since: 0,
    }
}

#[test]
fn handshake_three_way() {
    let listen = TcpState::listen();
    assert_eq!(listen.kind, TcpStateKind::Listen);

    // SYN with sequence number 100
    let (st, out) = listen.on_segment(&seg(100, 0, true, false, false, false, vec![]), 0);
    assert_eq!(st.kind, TcpStateKind::SynReceived);
    assert_eq!(st.rcv_nxt, 101);
    assert_eq!(out.segments.len(), 1);
    let syn_ack = &out.segments[0];
    assert!(syn_ack.is_syn && syn_ack.is_ack && !syn_ack.is_fin && !syn_ack.is_rst);
    assert_eq!(syn_ack.seq_num, INITIAL_SEND_SEQ);
    assert_eq!(syn_ack.ack_num, 101);

    // ACK of the SYN+ACK establishes the connection
    let (st2, out2) = st.on_segment(
        &seg(101, INITIAL_SEND_SEQ.wrapping_add(1), false, true, false, false, vec![]),
        1,
    );
    assert_eq!(st2.kind, TcpStateKind::Established);
    assert_eq!(st2.snd_una, INITIAL_SEND_SEQ.wrapping_add(1));
    assert!(out2.segments.is_empty());
    assert!(out2.delivered.is_none() && !out2.eof && out2.reset.is_none());
}

#[test]
fn graceful_close_fin_exactly_once() {
    let est = state(TcpStateKind::Established, 0x2000, 500);
    let (st, out) = est.on_segment(&seg(500, 0, false, false, true, false, vec![]), 0);
    assert_eq!(st.kind, TcpStateKind::CloseWait);
    assert_eq!(st.rcv_nxt, 501);
    assert!(out.eof, "end of stream must be delivered");
    assert_eq!(out.segments.len(), 1);
    assert!(out.segments[0].is_ack);
    assert_eq!(out.segments[0].ack_num, 501);

    // a duplicate of the same FIN produces no second end-of-stream
    let (st2, out2) = st.on_segment(&seg(500, 0, false, false, true, false, vec![]), 1);
    assert_eq!(st2.kind, TcpStateKind::CloseWait);
    assert!(!out2.eof, "end of stream is delivered exactly once");
}

#[test]
fn reset_aborts_every_synchronized_state() {
    for kind in [
        TcpStateKind::SynSent,
        TcpStateKind::SynReceived,
        TcpStateKind::Established,
        TcpStateKind::FinWait1,
        TcpStateKind::FinWait2,
        TcpStateKind::CloseWait,
        TcpStateKind::Closing,
        TcpStateKind::LastAck,
        TcpStateKind::TimeWait,
    ] {
        let st = state(kind, 0x2000, 500);
        let (st2, out) = st.on_segment(&seg(500, 0, false, false, false, true, vec![]), 0);
        assert_eq!(st2.kind, TcpStateKind::Closed);
        assert!(st2.rtq.is_empty(), "retransmission queue must be emptied");
        assert!(out.segments.is_empty(), "a reset is answered with nothing");
        assert_eq!(out.reset, Some(TcpProcessError::ConnectionReset));
        assert!(out.delivered.is_none() && !out.eof);
    }
}

#[test]
fn reset_ignored_in_listen_and_closed() {
    let listen = TcpState::listen();
    let (st, out) = listen.on_segment(&seg(1, 0, false, false, false, true, vec![]), 0);
    assert_eq!(st.kind, TcpStateKind::Listen);
    assert!(out.reset.is_none() && out.segments.is_empty());

    let closed = state(TcpStateKind::Closed, 0, 0);
    let (st2, out2) = closed.on_segment(&seg(1, 0, false, false, false, true, vec![]), 0);
    assert_eq!(st2.kind, TcpStateKind::Closed);
    assert!(out2.reset.is_none() && out2.segments.is_empty());
}

#[test]
fn in_order_payload_delivered_and_acked() {
    let est = state(TcpStateKind::Established, 0x2000, 700);
    let (st, out) = est.on_segment(&seg(700, 0, false, false, false, false, vec![9, 8, 7]), 0);
    assert_eq!(st.kind, TcpStateKind::Established);
    assert_eq!(st.rcv_nxt, 703);
    assert_eq!(out.delivered, Some(vec![9, 8, 7]));
    assert_eq!(out.segments.len(), 1);
    assert_eq!(out.segments[0].ack_num, 703);
    assert_eq!(out.segments[0].seq_num, 0x2000);
}

#[test]
fn unacceptable_segment_answered_with_resync_ack() {
    let est = state(TcpStateKind::Established, 0x2000, 700);
    // far outside the window: dropped, state unchanged, pure ACK with RCV.NXT
    let (st, out) = est.on_segment(&seg(0x9000_0000, 0, false, false, false, false, vec![1]), 0);
    assert_eq!(st.kind, TcpStateKind::Established);
    assert_eq!(st.rcv_nxt, 700);
    assert!(out.delivered.is_none());
    assert_eq!(out.segments.len(), 1);
    assert_eq!(out.segments[0].ack_num, 700);
}

#[test]
fn send_then_retransmit_identical_until_exhaustion() {
    let est = state(TcpStateKind::Established, 0x5000, 100);
    let (st, sent) = est.send(vec![1, 2, 3, 4], 0);
    let sent = sent.expect("send inside the window is accepted");
    assert_eq!(sent.segments.len(), 1);
    assert_eq!(sent.segments[0].seq_num, 0x5000);
    assert_eq!(sent.segments[0].payload, vec![1, 2, 3, 4]);
    assert_eq!(st.snd_nxt, 0x5004);
    assert_eq!(st.rtq.len(), 1);

    // before the timeout nothing is resent
    let (st, quiet) = st.on_timer(RETRANSMIT_TIMEOUT - 1);
    assert!(quiet.segments.is_empty() && quiet.reset.is_none());

    // each timeout resends the identical sequence range and payload
    let mut st = st;
    for round in 0..MAX_RETRIES {
        let now = (round as u64 + 1) * RETRANSMIT_TIMEOUT;
        let (next, out) = st.on_timer(now);
        assert_eq!(out.segments.len(), 1, "round {round} must resend");
        assert_eq!(out.segments[0].seq_num, 0x5000);
        assert_eq!(out.segments[0].payload, vec![1, 2, 3, 4]);
        assert!(out.reset.is_none());
        assert_eq!(next.rtq.len(), 1);
        assert_eq!(next.rtq[0].retries, round + 1);
        st = next;
    }

    // past the retry bound the connection aborts instead of resending
    let (end, out) = st.on_timer((MAX_RETRIES as u64 + 1) * RETRANSMIT_TIMEOUT);
    assert_eq!(end.kind, TcpStateKind::Closed);
    assert!(end.rtq.is_empty());
    assert!(out.segments.is_empty());
    assert_eq!(out.reset, Some(TcpProcessError::RetriesExhausted));
}

#[test]
fn ack_retires_across_wraparound() {
    // SND.UNA = 0xFFFFFFF0 with 0x20 octets in flight crossing 2^32
    let mut st = state(TcpStateKind::Established, 0xFFFF_FFF0, 300);
    let (st2, sent) = st.send(vec![0xABu8; 0x20], 0);
    assert!(sent.is_some());
    st = st2;
    assert_eq!(st.snd_nxt, 0x10);
    assert_eq!(st.rtq.len(), 1);

    // an acknowledgment at 0x10 retires the whole range
    let (st3, out) = st.on_segment(&seg(300, 0x10, false, true, false, false, vec![]), 1);
    assert_eq!(st3.snd_una, 0x10);
    assert!(st3.rtq.is_empty(), "the wrapped range must be retired");
    assert!(out.reset.is_none());
}

#[test]
fn seq_arithmetic_wraps() {
    assert_eq!(seq_sub(0x10, 0xFFFF_FFF0), 0x20);
    assert_eq!(seq_add(0xFFFF_FFF0, 0x20), 0x10);
    assert_eq!(seq_sub(5, 5), 0);
    assert_eq!(seq_add(0xFFFF_FFFF, 1), 0);
}

#[test]
fn close_paths_to_time_wait_and_last_ack() {
    // local close from ESTABLISHED: FIN out, FIN_WAIT_1
    let est = state(TcpStateKind::Established, 0x3000, 50);
    let (st, out) = est.close();
    assert_eq!(st.kind, TcpStateKind::FinWait1);
    assert_eq!(st.snd_nxt, 0x3001);
    assert_eq!(out.segments.len(), 1);
    assert!(out.segments[0].is_fin);
    assert_eq!(out.segments[0].seq_num, 0x3000);

    // the peer acknowledges the FIN: FIN_WAIT_2
    let (st, _) = st.on_segment(&seg(50, 0x3001, false, true, false, false, vec![]), 0);
    assert_eq!(st.kind, TcpStateKind::FinWait2);

    // the peer's own FIN: TIME_WAIT, with an ACK out
    let (st, out) = st.on_segment(&seg(50, 0, false, false, true, false, vec![]), 7);
    assert_eq!(st.kind, TcpStateKind::TimeWait);
    assert!(out.eof);
    assert_eq!(out.segments.len(), 1);
    assert_eq!(out.segments[0].ack_num, 51);

    // quiescence timeout purges the connection
    let (st, _) = st.on_timer(7 + TIME_WAIT_TIMEOUT);
    assert_eq!(st.kind, TcpStateKind::Closed);

    // local close from CLOSE_WAIT: LAST_ACK, then the final ACK closes
    let cw = state(TcpStateKind::CloseWait, 0x4000, 60);
    let (st, _) = cw.close();
    assert_eq!(st.kind, TcpStateKind::LastAck);
    let (st, out) = st.on_segment(&seg(60, 0x4001, false, true, false, false, vec![]), 0);
    assert_eq!(st.kind, TcpStateKind::Closed);
    assert!(out.segments.is_empty());
}

#[test]
fn simultaneous_close_goes_through_closing() {
    let est = state(TcpStateKind::Established, 0x3000, 50);
    let (st, _) = est.close();
    assert_eq!(st.kind, TcpStateKind::FinWait1);
    // the peer's FIN arrives before the ACK of ours
    let (st, out) = st.on_segment(&seg(50, 0, false, false, true, false, vec![]), 0);
    assert_eq!(st.kind, TcpStateKind::Closing);
    assert!(out.eof);
    // the ACK of our FIN then reaches TIME_WAIT
    let (st, _) = st.on_segment(&seg(51, 0x3001, false, true, false, false, vec![]), 0);
    assert_eq!(st.kind, TcpStateKind::TimeWait);
}

#[test]
fn syn_on_synchronized_connection_dropped_with_ack() {
    // an in-window SYN on an established connection is never ordinary
    // carriage: the segment is dropped whole and the peer resynchronized
    let est = state(TcpStateKind::Established, 0x2000, 700);
    let (st, out) = est.on_segment(&seg(700, 0, true, false, false, false, vec![1, 2]), 0);
    assert_eq!(st.kind, TcpStateKind::Established);
    assert_eq!(st.rcv_nxt, 700, "nothing of the segment is consumed");
    assert!(out.delivered.is_none() && !out.eof && out.reset.is_none());
    assert_eq!(out.segments.len(), 1);
    assert!(out.segments[0].is_ack && !out.segments[0].is_syn);
    assert_eq!(out.segments[0].ack_num, 700);
}

#[test]
fn syn_sent_establishes_on_syn_ack() {
    // the active-open counterpart: a SYN+ACK acknowledging our SYN
    let st = TcpState {
        kind: TcpStateKind::SynSent,
        snd_una: 0x7000,
        snd_nxt: 0x7001,
        snd_wnd: 0,
        rcv_nxt: 0,
        rcv_wnd: 0x4000,
        rtq: vec![],
        wait_since: 0,
    };
    let (st2, out) = st.on_segment(&seg(900, 0x7001, true, true, false, false, vec![]), 0);
    assert_eq!(st2.kind, TcpStateKind::Established);
    assert_eq!(st2.rcv_nxt, 901);
    assert_eq!(st2.snd_una, 0x7001);
    assert_eq!(out.segments.len(), 1);
    assert!(out.segments[0].is_ack && !out.segments[0].is_syn);
    assert_eq!(out.segments[0].ack_num, 901);

    // anything that is not a SYN+ACK is ignored in SYN_SENT
    let st3 = state(TcpStateKind::SynSent, 0x7000, 0);
    let (st4, out2) = st3.on_segment(&seg(900, 0, false, true, false, false, vec![]), 0);
    assert_eq!(st4.kind, TcpStateKind::SynSent);
    assert!(out2.segments.is_empty());
}

#[test]
fn send_refused_outside_window_or_state() {
    // a chunk past the peer's advertised window is refused unchanged
    let mut est = state(TcpStateKind::Established, 0x5000, 100);
    est.snd_wnd = 3;
    let (st, refused) = est.send(vec![1, 2, 3, 4], 0);
    assert!(refused.is_none());
    assert_eq!(st.snd_nxt, 0x5000);
    assert!(st.rtq.is_empty());

    // an empty chunk is refused
    let est2 = state(TcpStateKind::Established, 0x5000, 100);
    let (_, refused2) = est2.send(vec![], 0);
    assert!(refused2.is_none());

    // a state that may not send is refused
    let lw = state(TcpStateKind::LastAck, 0x5000, 100);
    let (_, refused3) = lw.send(vec![1], 0);
    assert!(refused3.is_none());
}

#[test]
fn table_retry_exhaustion_destroys_entry() {
    let peer = Ipv4Addr::from_be_bytes([10, 0, 0, 2]);
    let local = Ipv4Addr::from_be_bytes([10, 0, 0, 1]);
    let id = TcpConnectionIdent::new(local, 80, peer, 1000);
    let mut table = TcpConnections::new();
    table.process_packet(peer, local, &seg(100, 0, true, false, false, false, vec![]), 0);
    let ack = seg(101, INITIAL_SEND_SEQ.wrapping_add(1), false, true, false, false, vec![]);
    table.process_packet(peer, local, &ack, 1);
    table.send(&id, vec![1], 10).expect("send is accepted");

    // every timeout resends, until the retry bound aborts the connection
    for round in 0..MAX_RETRIES {
        let out = table.on_timer(&id, 10 + (round as u64 + 1) * RETRANSMIT_TIMEOUT).unwrap();
        assert_eq!(out.segments.len(), 1);
        assert!(out.reset.is_none());
    }
    let out = table
        .on_timer(&id, 10 + (MAX_RETRIES as u64 + 1) * RETRANSMIT_TIMEOUT)
        .unwrap();
    assert_eq!(out.reset, Some(TcpProcessError::RetriesExhausted));
    assert!(
        table.get(&id).is_none(),
        "the aborted connection must leave the table"
    );
}

#[test]
fn table_creates_on_syn_and_drops_on_rst() {
    let peer = Ipv4Addr::from_be_bytes([10, 0, 0, 2]);
    let local = Ipv4Addr::from_be_bytes([10, 0, 0, 1]);
    let mut table = TcpConnections::new();

    // a non-SYN segment for an unknown connection is ignored
    let out = table.process_packet(peer, local, &seg(9, 0, false, true, false, false, vec![]), 0);
    assert!(out.segments.is_empty() && out.reset.is_none());
    let id = TcpConnectionIdent::new(local, 80, peer, 1000);
    assert!(table.get(&id).is_none());

    // an inbound SYN performs a passive open
    let out = table.process_packet(peer, local, &seg(100, 0, true, false, false, false, vec![]), 0);
    assert_eq!(out.segments.len(), 1);
    assert!(out.segments[0].is_syn && out.segments[0].is_ack);
    let st = table.get(&id).expect("the SYN must create an entry");
    assert_eq!(st.kind, TcpStateKind::SynReceived);

    // the handshake completes through the table
    let ack = seg(101, INITIAL_SEND_SEQ.wrapping_add(1), false, true, false, false, vec![]);
    table.process_packet(peer, local, &ack, 1);
    assert_eq!(table.get(&id).unwrap().kind, TcpStateKind::Established);

    // a reset destroys the entry
    let out = table.process_packet(peer, local, &seg(101, 0, false, false, false, true, vec![]), 2);
    assert_eq!(out.reset, Some(TcpProcessError::ConnectionReset));
    assert!(table.get(&id).is_none());
}

#[test]
fn table_send_timer_and_remove() {
    let peer = Ipv4Addr::from_be_bytes([10, 0, 0, 2]);
    let local = Ipv4Addr::from_be_bytes([10, 0, 0, 1]);
    let id = TcpConnectionIdent::new(local, 80, peer, 1000);
    let mut table = TcpConnections::new();
    table.process_packet(peer, local, &seg(100, 0, true, false, false, false, vec![]), 0);
    let ack = seg(101, INITIAL_SEND_SEQ.wrapping_add(1), false, true, false, false, vec![]);
    table.process_packet(peer, local, &ack, 1);

    // data goes out and joins the retransmission queue
    let out = table.send(&id, vec![5, 6], 10).expect("send is accepted");
    assert_eq!(out.segments.len(), 1);
    assert_eq!(out.segments[0].payload, vec![5, 6]);
    assert_eq!(table.get(&id).unwrap().rtq.len(), 1);

    // a timer tick after the timeout resends it
    let out = table.on_timer(&id, 10 + RETRANSMIT_TIMEOUT).unwrap();
    assert_eq!(out.segments.len(), 1);
    assert_eq!(out.segments[0].payload, vec![5, 6]);

    // a timer tick for an unknown identifier reports none
    let other = TcpConnectionIdent::new(local, 81, peer, 1000);
    assert!(table.on_timer(&other, 0).is_none());

    // removal drops the entry
    table.remove(&id);
    assert!(table.get(&id).is_none());

    // a local close on a missing connection reports none
    assert!(table.close(&id).is_none());
}
