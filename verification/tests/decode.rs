use netstack::common::{NetParseError, Netparse};
use netstack::ip::{InternetProto, Ipv4Addr, Ipv4Packet};
use netstack::tcp::TcpPacket;

fn ipv4_header(ttl: u8, proto: u8, flags_byte: u8, total_len: u16) -> Vec<u8> {
    let mut b = vec![0u8; 24];
    b[0] = 0x45; // version 4, header length 5 words = 20 octets
    b[2] = (total_len >> 8) as u8;
    b[3] = (total_len & 0xFF) as u8;
    b[6] = flags_byte;
    b[8] = ttl;
    b[9] = proto;
    b[12] = 10;
    b[13] = 0;
    b[14] = 0;
    b[15] = 1;
    b[16] = 10;
    b[17] = 0;
    b[18] = 0;
    b[19] = 2;
    b[20] = 0xAA;
    b[21] = 0xBB;
    b[22] = 0xCC;
    b[23] = 0xDD;
    b
}

#[test]
fn u16_from_be_slice_reads_big_endian() {
    assert_eq!(u16::from_be_slice(&[0x12, 0x34]), Ok(0x1234));
    assert!(matches!(
        u16::from_be_slice(&[0x12]),
        Err(NetParseError::MalformedPacket)
    ));
    assert!(matches!(
        u16::from_be_slice(&[1, 2, 3]),
        Err(NetParseError::MalformedPacket)
    ));
}

#[test]
fn u32_from_be_slice_reads_big_endian() {
    assert_eq!(u32::from_be_slice(&[0x12, 0x34, 0x56, 0x78]), Ok(0x12345678));
    assert!(matches!(
        u32::from_be_slice(&[]),
        Err(NetParseError::MalformedPacket)
    ));
}

#[test]
fn ipv4_addr_from_be_slice() {
    let a = Ipv4Addr::from_be_bytes([192, 168, 0, 1]);
    assert_eq!(Ipv4Addr::from_be_slice(&[192, 168, 0, 1]), Ok(a));
    assert!(matches!(
        Ipv4Addr::from_be_slice(&[192, 168, 0]),
        Err(NetParseError::MalformedPacket)
    ));
}

#[test]
fn ipv4_round_trip_recovers_fields() {
    let b = ipv4_header(64, 6, 0x40, 24);
    let p = Ipv4Packet::from_be_bytes_slice(&b).unwrap();
    assert_eq!(p.src_addr(), Ipv4Addr::from_be_bytes([10, 0, 0, 1]));
    assert_eq!(p.dst_addr(), Ipv4Addr::from_be_bytes([10, 0, 0, 2]));
    assert!(matches!(p.proto(), InternetProto::Tcp));
    assert_eq!(p.time_to_live(), 63);
    assert_eq!(p.data().as_slice(), &[0xAA, 0xBB, 0xCC, 0xDD]);
}

#[test]
fn ipv4_payload_bounded_by_total_length() {
    // total length 22: only the first two payload octets belong to the datagram
    let b = ipv4_header(64, 6, 0x40, 22);
    let p = Ipv4Packet::from_be_bytes_slice(&b).unwrap();
    assert_eq!(p.data().as_slice(), &[0xAA, 0xBB]);
}

#[test]
fn ipv4_ttl_one_is_dropped_before_dispatch() {
    let b = ipv4_header(1, 6, 0x40, 24);
    assert!(matches!(
        Ipv4Packet::from_be_bytes_slice(&b),
        Err(NetParseError::Other)
    ));
    let b0 = ipv4_header(0, 6, 0x40, 24);
    assert!(matches!(
        Ipv4Packet::from_be_bytes_slice(&b0),
        Err(NetParseError::Other)
    ));
}

#[test]
fn ipv4_ttl_two_decodes_as_one() {
    let b = ipv4_header(2, 6, 0x40, 24);
    let p = Ipv4Packet::from_be_bytes_slice(&b).unwrap();
    assert_eq!(p.time_to_live(), 1);
}

#[test]
fn ipv4_fragmentation_flags_rejected() {
    // flag patterns 001, 100, 101, 111 in bits 5-7 of byte 6
    for flags in [0x20u8, 0x80, 0xA0, 0xE0] {
        let b = ipv4_header(64, 6, flags, 24);
        assert!(
            matches!(
                Ipv4Packet::from_be_bytes_slice(&b),
                Err(NetParseError::UnhandledVariant)
            ),
            "flags byte {flags:#x} must be rejected"
        );
    }
    // patterns 000 and 010 are accepted
    for flags in [0x00u8, 0x40] {
        let b = ipv4_header(64, 6, flags, 24);
        assert!(Ipv4Packet::from_be_bytes_slice(&b).is_ok());
    }
}

#[test]
fn ipv4_nonzero_fragment_offset_rejected() {
    let mut b = ipv4_header(64, 6, 0x00, 24);
    b[7] = 1;
    assert!(matches!(
        Ipv4Packet::from_be_bytes_slice(&b),
        Err(NetParseError::UnhandledVariant)
    ));
}

#[test]
fn ipv4_version_mismatch_is_incorrect_variant() {
    let mut b = ipv4_header(64, 6, 0x40, 24);
    b[0] = 0x65; // version 6
    assert!(matches!(
        Ipv4Packet::from_be_bytes_slice(&b),
        Err(NetParseError::IncorrectVariant)
    ));
}

#[test]
fn ipv4_version_checked_before_length() {
    // a wrong version nibble names the incorrect-variant error whatever the
    // remaining bytes hold, even on a one-byte buffer
    assert!(matches!(
        Ipv4Packet::from_be_bytes_slice(&[0x60]),
        Err(NetParseError::IncorrectVariant)
    ));
    // a short buffer that does carry version 4 is malformed
    assert!(matches!(
        Ipv4Packet::from_be_bytes_slice(&[0x45]),
        Err(NetParseError::MalformedPacket)
    ));
}

#[test]
fn ipv4_bounds_violations_are_malformed() {
    assert!(matches!(
        Ipv4Packet::from_be_bytes_slice(&[]),
        Err(NetParseError::MalformedPacket)
    ));
    let short = [0x45u8; 19];
    assert!(matches!(
        Ipv4Packet::from_be_bytes_slice(&short),
        Err(NetParseError::MalformedPacket)
    ));
    // header length below 20 octets
    let mut b = ipv4_header(64, 6, 0x40, 24);
    b[0] = 0x44;
    assert!(matches!(
        Ipv4Packet::from_be_bytes_slice(&b),
        Err(NetParseError::MalformedPacket)
    ));
    // total length beyond the buffer
    let b2 = ipv4_header(64, 6, 0x40, 200);
    assert!(matches!(
        Ipv4Packet::from_be_bytes_slice(&b2),
        Err(NetParseError::MalformedPacket)
    ));
    // total length below the header length
    let b3 = ipv4_header(64, 6, 0x40, 8);
    assert!(matches!(
        Ipv4Packet::from_be_bytes_slice(&b3),
        Err(NetParseError::MalformedPacket)
    ));
}

#[test]
fn ipv4_unknown_protocol_is_unhandled() {
    for proto in [2u8, 99, 255] {
        let b = ipv4_header(64, proto, 0x40, 24);
        assert!(matches!(
            Ipv4Packet::from_be_bytes_slice(&b),
            Err(NetParseError::UnhandledVariant)
        ));
    }
    let icmp = ipv4_header(64, 1, 0x40, 24);
    assert!(matches!(
        Ipv4Packet::from_be_bytes_slice(&icmp).unwrap().proto(),
        InternetProto::Icmp
    ));
    let udp = ipv4_header(64, 17, 0x40, 24);
    assert!(matches!(
        Ipv4Packet::from_be_bytes_slice(&udp).unwrap().proto(),
        InternetProto::Udp
    ));
}

#[test]
fn internet_proto_from_byte_mapping() {
    assert!(matches!(InternetProto::from_byte(1), Ok(InternetProto::Icmp)));
    assert!(matches!(InternetProto::from_byte(6), Ok(InternetProto::Tcp)));
    assert!(matches!(InternetProto::from_byte(17), Ok(InternetProto::Udp)));
    assert!(matches!(
        InternetProto::from_byte(2),
        Err(NetParseError::UnhandledVariant)
    ));
}

fn tcp_header(flags: u8, offset_words: u8) -> Vec<u8> {
    let mut b = vec![0u8; 24];
    b[0] = 0x30; // source port 0x3039 = 12345
    b[1] = 0x39;
    b[2] = 0x00; // destination port 80
    b[3] = 0x50;
    b[4] = 0x00; // sequence number 0x64 = 100
    b[5] = 0x00;
    b[6] = 0x00;
    b[7] = 0x64;
    b[8] = 0x00; // acknowledgment number 0x1001
    b[9] = 0x00;
    b[10] = 0x10;
    b[11] = 0x01;
    b[12] = offset_words << 4;
    b[13] = flags;
    b[14] = 0x40; // window 0x4000
    b[15] = 0x00;
    b[20] = 1;
    b[21] = 2;
    b[22] = 3;
    b[23] = 4;
    b
}

#[test]
fn tcp_decode_recovers_fields() {
    let b = tcp_header(0x02, 5); // SYN
    let p = TcpPacket::from_be_bytes_slice(&b).unwrap();
    assert_eq!(p.src_port, 12345);
    assert_eq!(p.dst_port, 80);
    assert_eq!(p.seq_num, 100);
    assert_eq!(p.ack_num, 0x1001);
    assert!(p.is_syn);
    assert!(!p.is_ack && !p.is_rst && !p.is_fin && !p.is_psh);
    assert_eq!(p.window_size, 0x4000);
    assert_eq!(p.urg_pointer, None);
    assert_eq!(p.data, vec![1, 2, 3, 4]);
}

#[test]
fn tcp_reserved_bits_always_malformed() {
    // low nibble of byte 12 nonzero
    let mut b = tcp_header(0x10, 5);
    b[12] |= 0x01;
    assert!(matches!(
        TcpPacket::from_be_bytes_slice(&b),
        Err(NetParseError::MalformedPacket)
    ));
    // top two bits of byte 13 nonzero
    let mut b2 = tcp_header(0x10, 5);
    b2[13] |= 0x40;
    assert!(matches!(
        TcpPacket::from_be_bytes_slice(&b2),
        Err(NetParseError::MalformedPacket)
    ));
    let mut b3 = tcp_header(0x10, 5);
    b3[13] |= 0x80;
    assert!(matches!(
        TcpPacket::from_be_bytes_slice(&b3),
        Err(NetParseError::MalformedPacket)
    ));
}

#[test]
fn tcp_data_offset_bounds_checked() {
    // an offset below the fixed header is malformed
    let b = tcp_header(0x10, 4);
    assert!(matches!(
        TcpPacket::from_be_bytes_slice(&b),
        Err(NetParseError::MalformedPacket)
    ));
    // an offset past the end of the buffer is malformed
    let b2 = tcp_header(0x10, 15);
    assert!(matches!(
        TcpPacket::from_be_bytes_slice(&b2),
        Err(NetParseError::MalformedPacket)
    ));
    // a short buffer is malformed, never a panic
    assert!(matches!(
        TcpPacket::from_be_bytes_slice(&[0u8; 10]),
        Err(NetParseError::MalformedPacket)
    ));
}

#[test]
fn tcp_options_skipped_structurally() {
    // data offset 6 words: 4 octets of options are skipped, payload follows
    let b = tcp_header(0x10, 6);
    let p = TcpPacket::from_be_bytes_slice(&b).unwrap();
    assert_eq!(p.data, Vec::<u8>::new());
    let mut b2 = tcp_header(0x10, 6);
    b2.push(0x77);
    let p2 = TcpPacket::from_be_bytes_slice(&b2).unwrap();
    assert_eq!(p2.data, vec![0x77]);
}

#[test]
fn tcp_urgent_pointer_present_iff_urg() {
    let mut b = tcp_header(0x20, 5); // URG
    b[18] = 0x01;
    b[19] = 0x02;
    let p = TcpPacket::from_be_bytes_slice(&b).unwrap();
    assert_eq!(p.urg_pointer, Some(0x0102));
    let q = TcpPacket::from_be_bytes_slice(&tcp_header(0x10, 5)).unwrap();
    assert_eq!(q.urg_pointer, None);
}
