//! Demultiplexer behavior: SD detection, PDU multiplexing, framing layers,
//! TP reassembly, TCP re-framing and capture-file records.

use someip_analyzer::demux::{
    check_if_sd, check_is_sd, is_tp_message_type, parse_sd_entries, parse_someip_header,
    raw_message_kind, split_someip_messages, LinkType, PacketDemultiplexer, SomeipRawMessageType,
};
use someip_analyzer::pcap::parse_pcap;
use someip_analyzer::reassembly::{ConnKey, FlowKey, TcpReassembler, TpReassembler};
use someip_analyzer::types::{IpAddress, SomeipMessageType, SomeipTransportPortocol};

/// One SOME/IP message: header with the given ids and type byte, then the
/// payload.
fn someip_bytes(service: u16, method: u16, msg_type: u8, payload: &[u8]) -> Vec<u8> {
    let mut b = Vec::new();
    b.extend_from_slice(&service.to_be_bytes());
    b.extend_from_slice(&method.to_be_bytes());
    let length = (8 + payload.len()) as u32;
    b.extend_from_slice(&length.to_be_bytes());
    b.extend_from_slice(&0x00C1u16.to_be_bytes()); // client id
    b.extend_from_slice(&0x0001u16.to_be_bytes()); // session id
    b.push(1); // protocol version
    b.push(2); // interface version
    b.push(msg_type);
    b.push(0); // return code
    b.extend_from_slice(payload);
    b
}

#[test]
fn sd_detection_is_exact() {
    assert!(check_is_sd(0xFFFF, 0x8100));
    assert!(check_if_sd(0xFFFF, 0x8100));
    assert!(!check_is_sd(0xFFFF, 0x8101));
    assert!(!check_is_sd(0xFFFE, 0x8100));
    assert!(!check_is_sd(0x1234, 0x0001));
}

#[test]
fn header_fields_read_back() {
    let b = someip_bytes(0x1234, 0x0005, 0x00, &[0xAA, 0xBB]);
    let h = parse_someip_header(&b, 0).unwrap();
    assert_eq!(h.service_id, 0x1234);
    assert_eq!(h.method_id, 0x0005);
    assert_eq!(h.length, 10);
    assert_eq!(h.client_id, 0x00C1);
    assert_eq!(h.session_id, 0x0001);
    assert_eq!(h.message_type, 0x00);
    assert!(parse_someip_header(&b, 8).is_none());
}

#[test]
fn two_messages_multiplex_in_order() {
    let mut payload = someip_bytes(0x1111, 0x0001, 0x00, &[1, 2, 3]);
    payload.extend_from_slice(&someip_bytes(0x2222, 0x0002, 0x02, &[9]));
    let (msgs, _raws, clean) =
        split_someip_messages(7, SomeipTransportPortocol::UDP, &payload);
    assert!(clean);
    assert_eq!(msgs.len(), 2);
    assert_eq!(msgs[0].service_id, 0x1111);
    assert_eq!(msgs[0].message_type, SomeipMessageType::Request);
    assert_eq!(msgs[0].payload, vec![1, 2, 3]);
    assert_eq!(msgs[0].timestamp, 7);
    assert_eq!(msgs[1].service_id, 0x2222);
    assert_eq!(msgs[1].message_type, SomeipMessageType::Notification);
    assert_eq!(msgs[1].payload, vec![9]);
}

#[test]
fn short_tail_is_not_clean() {
    let mut payload = someip_bytes(0x1111, 0x0001, 0x00, &[]);
    payload.extend_from_slice(&[0xFF, 0xFF]);
    let (msgs, _raws, clean) =
        split_someip_messages(0, SomeipTransportPortocol::UDP, &payload);
    assert_eq!(msgs.len(), 1);
    assert!(!clean);
}

#[test]
fn sd_entries_parse() {
    // flags + reserved, entries length 32, two 16-byte entries.
    let mut p = vec![0x00, 0x00, 0x00, 0x00];
    p.extend_from_slice(&32u32.to_be_bytes());
    // Offer of service 0x1234 instance 1, major 2, ttl 3.
    p.extend_from_slice(&[0x01, 0, 0, 0, 0x12, 0x34, 0x00, 0x01, 0x02, 0x00, 0x00, 0x03]);
    p.extend_from_slice(&0u32.to_be_bytes());
    // Subscribe of service 0x5678.
    p.extend_from_slice(&[0x06, 0, 0, 0, 0x56, 0x78, 0x00, 0x02, 0x01, 0x00, 0x00, 0x09]);
    p.extend_from_slice(&1u32.to_be_bytes());
    let entries = parse_sd_entries(&p).unwrap();
    assert_eq!(entries.len(), 2);
    assert_eq!(entries[0].entry_type, 0x01);
    assert_eq!(entries[0].service_id, 0x1234);
    assert_eq!(entries[0].instance_id, 1);
    assert_eq!(entries[0].major_version, 2);
    assert_eq!(entries[0].ttl, 3);
    assert_eq!(entries[1].entry_type, 0x06);
    assert_eq!(entries[1].service_id, 0x5678);
    assert!(parse_sd_entries(&vec![0, 0, 0]).is_none());
}

fn flow() -> FlowKey {
    FlowKey {
        src: IpAddress::V4(0x0A000001),
        dst: IpAddress::V4(0x0A000002),
        src_port: 30509,
        dst_port: 30499,
        service_id: 0x1234,
        method_id: 0x0001,
        client_id: 0x00C1,
    }
}

#[test]
fn tp_segments_reassemble_in_order() {
    let mut tp = TpReassembler::new();
    let first = vec![1u8, 2, 3, 4];
    let second = vec![5u8, 6];
    assert!(tp.push_segment(flow(), 0, true, &first).is_none());
    let whole = tp.push_segment(flow(), 4, false, &second).unwrap();
    assert_eq!(whole, vec![1, 2, 3, 4, 5, 6]);
    // The flow is gone afterwards: a new terminal has no predecessor.
    assert!(tp.push_segment(flow(), 6, false, &second).is_none());
}

#[test]
fn tp_terminal_without_predecessor_is_dropped() {
    let mut tp = TpReassembler::new();
    assert!(tp.push_segment(flow(), 16, false, &vec![1, 2, 3]).is_none());
    // A single-segment transfer (offset zero, no more) passes through.
    let whole = tp.push_segment(flow(), 0, false, &vec![7, 8]).unwrap();
    assert_eq!(whole, vec![7, 8]);
}

#[test]
fn tp_offset_gap_drops_the_buffer() {
    let mut tp = TpReassembler::new();
    assert!(tp.push_segment(flow(), 0, true, &vec![1, 2]).is_none());
    // Offset skips ahead: buffered bytes are discarded.
    assert!(tp.push_segment(flow(), 16, true, &vec![3, 4]).is_none());
    // And the flow was dropped entirely.
    assert!(tp.push_segment(flow(), 2, false, &vec![5]).is_none());
}

#[test]
fn tcp_stream_reframes_messages() {
    let key = ConnKey {
        src: IpAddress::V4(1),
        dst: IpAddress::V4(2),
        src_port: 1000,
        dst_port: 2000,
    };
    let mut tcp = TcpReassembler::new();
    let msg = someip_bytes(0x1234, 0x0001, 0x00, &[1, 2, 3, 4]);
    let (a, b) = msg.split_at(10);
    assert_eq!(tcp.push_bytes(key, &a.to_vec()).len(), 0);
    let frames = tcp.push_bytes(key, &b.to_vec());
    assert_eq!(frames.len(), 1);
    assert_eq!(frames[0], msg);
    // Two whole messages in one push come out separately.
    let mut two = someip_bytes(0x1111, 0x0001, 0x00, &[]);
    two.extend_from_slice(&someip_bytes(0x2222, 0x0002, 0x02, &[9]));
    let frames = tcp.push_bytes(key, &two);
    assert_eq!(frames.len(), 2);
}

/// A UDP/IPv4/Ethernet frame around the given UDP payload.
fn udp_frame(payload: &[u8]) -> Vec<u8> {
    let mut f = Vec::new();
    // Ethernet: destination, source, ethertype IPv4.
    f.extend_from_slice(&[0, 1, 2, 3, 4, 5]);
    f.extend_from_slice(&[6, 7, 8, 9, 10, 11]);
    f.extend_from_slice(&[0x08, 0x00]);
    // IPv4 header, 20 bytes.
    let total = (20 + 8 + payload.len()) as u16;
    f.push(0x45);
    f.push(0);
    f.extend_from_slice(&total.to_be_bytes());
    f.extend_from_slice(&[0, 0, 0, 0]); // id, flags
    f.push(64); // ttl
    f.push(17); // protocol UDP
    f.extend_from_slice(&[0, 0]); // checksum
    f.extend_from_slice(&[10, 0, 0, 1]);
    f.extend_from_slice(&[10, 0, 0, 2]);
    // UDP header.
    f.extend_from_slice(&30509u16.to_be_bytes());
    f.extend_from_slice(&30499u16.to_be_bytes());
    f.extend_from_slice(&((8 + payload.len()) as u16).to_be_bytes());
    f.extend_from_slice(&[0, 0]);
    f.extend_from_slice(payload);
    f
}

#[test]
fn frame_dispatch_plain_udp() {
    let mut payload = someip_bytes(0x1111, 0x0001, 0x00, &[1, 2]);
    payload.extend_from_slice(&someip_bytes(0x2222, 0x0002, 0x80, &[3]));
    let frame = udp_frame(&payload);
    let mut demux = PacketDemultiplexer::new();
    let msgs = demux.handle_frame(LinkType::Ethernet, 42, &frame);
    assert_eq!(demux.stats.frames, 1);
    assert_eq!(msgs.len(), 2);
    assert_eq!(msgs[0].service_id, 0x1111);
    assert_eq!(msgs[1].service_id, 0x2222);
    assert_eq!(msgs[1].message_type, SomeipMessageType::Response);
    assert_eq!(msgs[1].transport_protocol, SomeipTransportPortocol::UDP);
}

#[test]
fn frame_dispatch_expands_sd() {
    let mut sd_payload = vec![0x00, 0x00, 0x00, 0x00];
    sd_payload.extend_from_slice(&16u32.to_be_bytes());
    sd_payload.extend_from_slice(&[0x01, 0, 0, 0, 0x12, 0x34, 0x00, 0x01, 0x02, 0x00, 0x00, 0x03]);
    sd_payload.extend_from_slice(&0u32.to_be_bytes());
    let payload = someip_bytes(0xFFFF, 0x8100, 0x02, &sd_payload);
    let frame = udp_frame(&payload);
    let mut demux = PacketDemultiplexer::new();
    let msgs = demux.handle_frame(LinkType::Ethernet, 0, &frame);
    assert_eq!(msgs.len(), 1);
    assert_eq!(msgs[0].message_type, SomeipMessageType::ServiceOffer);
    // The event carries the entry's own service id, not the outer 0xFFFF.
    assert_eq!(msgs[0].service_id, 0x1234);
    assert_eq!(demux.stats.sd_events, 1);
    // The logged event holds the entry's own fields in full.
    assert_eq!(demux.sd_log.len(), 1);
    assert_eq!(demux.sd_log[0].kind, SomeipMessageType::ServiceOffer);
    assert_eq!(demux.sd_log[0].service_id, 0x1234);
    assert_eq!(demux.sd_log[0].instance_id, 1);
    assert_eq!(demux.sd_log[0].major_version, 2);
    assert_eq!(demux.sd_log[0].ttl, 3);
}

#[test]
fn unrecognized_sd_entry_type_yields_no_event() {
    let mut sd_payload = vec![0x00, 0x00, 0x00, 0x00];
    sd_payload.extend_from_slice(&16u32.to_be_bytes());
    // Entry type 0x00 (find service) is not reported.
    sd_payload.extend_from_slice(&[0x00, 0, 0, 0, 0x12, 0x34, 0x00, 0x01, 0x02, 0x00, 0x00, 0x03]);
    sd_payload.extend_from_slice(&0u32.to_be_bytes());
    let payload = someip_bytes(0xFFFF, 0x8100, 0x02, &sd_payload);
    let frame = udp_frame(&payload);
    let mut demux = PacketDemultiplexer::new();
    let msgs = demux.handle_frame(LinkType::Ethernet, 0, &frame);
    assert_eq!(msgs.len(), 0);
    assert_eq!(demux.sd_log.len(), 0);
    assert_eq!(demux.stats.sd_events, 0);
}

#[test]
fn other_ip_protocol_is_dropped_silently() {
    // An ICMP packet inside an otherwise well-formed IPv4 frame: expected
    // non-SOME/IP traffic, so no message, no event and no drop counter.
    let mut f = Vec::new();
    f.extend_from_slice(&[0, 1, 2, 3, 4, 5]);
    f.extend_from_slice(&[6, 7, 8, 9, 10, 11]);
    f.extend_from_slice(&[0x08, 0x00]);
    f.push(0x45);
    f.push(0);
    f.extend_from_slice(&28u16.to_be_bytes());
    f.extend_from_slice(&[0, 0, 0, 0]);
    f.push(64);
    f.push(1); // protocol ICMP
    f.extend_from_slice(&[0, 0]);
    f.extend_from_slice(&[10, 0, 0, 1]);
    f.extend_from_slice(&[10, 0, 0, 2]);
    f.extend_from_slice(&[8, 0, 0, 0, 0, 0, 0, 0]);
    let mut demux = PacketDemultiplexer::new();
    let msgs = demux.handle_frame(LinkType::Ethernet, 0, &f);
    assert_eq!(msgs.len(), 0);
    assert_eq!(demux.stats.frames, 1);
    assert_eq!(demux.stats.truncated, 0);
    assert_eq!(demux.stats.unknown_link_protocol, 0);
    assert_eq!(demux.sd_log.len(), 0);
}

#[test]
fn unknown_ethertype_is_counted() {
    let mut f = vec![0u8; 12];
    f.extend_from_slice(&[0x86, 0x77]);
    f.extend_from_slice(&[0; 40]);
    let mut demux = PacketDemultiplexer::new();
    let msgs = demux.handle_frame(LinkType::Ethernet, 0, &f);
    assert_eq!(msgs.len(), 0);
    assert_eq!(demux.stats.unknown_link_protocol, 1);
    assert_eq!(demux.stats.frames, 1);
}

#[test]
fn pcap_records_parse() {
    let mut f = Vec::new();
    f.extend_from_slice(&[0xD4, 0xC3, 0xB2, 0xA1]); // little-endian magic
    f.extend_from_slice(&2u16.to_le_bytes());
    f.extend_from_slice(&4u16.to_le_bytes());
    f.extend_from_slice(&0i32.to_le_bytes());
    f.extend_from_slice(&0u32.to_le_bytes());
    f.extend_from_slice(&65535u32.to_le_bytes());
    f.extend_from_slice(&1u32.to_le_bytes()); // linktype ethernet
    // One record: ts 3s 20us, two captured bytes.
    f.extend_from_slice(&3u32.to_le_bytes());
    f.extend_from_slice(&20u32.to_le_bytes());
    f.extend_from_slice(&2u32.to_le_bytes());
    f.extend_from_slice(&2u32.to_le_bytes());
    f.extend_from_slice(&[0xAB, 0xCD]);
    let (linktype, recs) = parse_pcap(&f).unwrap();
    assert_eq!(linktype, 1);
    assert_eq!(recs.len(), 1);
    assert_eq!(recs[0].0, 3_000_020);
    assert_eq!(recs[0].1, vec![0xAB, 0xCD]);
    assert!(parse_pcap(&vec![1, 2, 3]).is_none());
}

#[test]
fn frame_dispatch_reassembles_tp() {
    // Two TP segments of one notification; the reconstructed message
    // appears once, classified without the segmentation flag.
    let mut seg1_payload = Vec::new();
    seg1_payload.extend_from_slice(&0x0000_0001u32.to_be_bytes()); // offset 0, more set
    seg1_payload.extend_from_slice(&[0xAA; 16]);
    let mut seg2_payload = Vec::new();
    seg2_payload.extend_from_slice(&0x0000_0010u32.to_be_bytes()); // offset 16, last
    seg2_payload.extend_from_slice(&[0xBB; 4]);
    let f1 = udp_frame(&someip_bytes(0x1234, 0x0001, 0x22, &seg1_payload));
    let f2 = udp_frame(&someip_bytes(0x1234, 0x0001, 0x22, &seg2_payload));
    let mut demux = PacketDemultiplexer::new();
    let first = demux.handle_frame(LinkType::Ethernet, 1, &f1);
    assert_eq!(first.len(), 0);
    let second = demux.handle_frame(LinkType::Ethernet, 2, &f2);
    assert_eq!(second.len(), 1);
    assert_eq!(second[0].message_type, SomeipMessageType::Notification);
    let mut expect = vec![0xAA; 16];
    expect.extend_from_slice(&[0xBB; 4]);
    assert_eq!(second[0].payload, expect);
    assert_eq!(demux.stats.frames, 2);
}

#[test]
fn raw_kinds_cover_plain_and_segmented_bytes() {
    assert_eq!(raw_message_kind(0x00), SomeipRawMessageType::Request);
    assert_eq!(raw_message_kind(0x01), SomeipRawMessageType::RequestNoResponse);
    assert_eq!(raw_message_kind(0x02), SomeipRawMessageType::Notification);
    assert_eq!(raw_message_kind(0x80), SomeipRawMessageType::Response);
    assert_eq!(raw_message_kind(0x20), SomeipRawMessageType::TpRequest);
    assert_eq!(raw_message_kind(0x22), SomeipRawMessageType::TpNotification);
    assert_eq!(raw_message_kind(0xA0), SomeipRawMessageType::TpResponse);
    assert!(is_tp_message_type(0x20));
    assert!(is_tp_message_type(0xA1));
    assert!(!is_tp_message_type(0x00));
    assert!(!is_tp_message_type(0x80));
}
