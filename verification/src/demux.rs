//! The packet demultiplexer's verified core: the SOME/IP message grammar on
//! raw bytes (header, PDU multiplexing, Service Discovery entries), the
//! link/network/transport framing above it, and the per-frame dispatch.

use vstd::prelude::*;

use crate::types::{
    IpAddress, SomeipMessage, SomeipMessageType, SomeipMessageView, SomeipTransportPortocol,
};
use crate::wire::be_val;

verus! {

/// Raw classification of one SOME/IP message before Service Discovery
/// expansion, distinguishing segmented (TP) traffic.
#[derive(Clone, Copy, PartialEq, Eq, Structural, Debug)]
pub enum SomeipRawMessageType {
    Request,
    RequestNoResponse,
    Response,
    Notification,
    TpRequest,
    TpRequestNoResponse,
    TpResponse,
    TpNotification,
    ServiceOffer,
    ServiceSubscribe,
    ServiceSubscribeAck,
}

/// The fields of one SOME/IP header (16 bytes on the wire).
#[derive(Clone, Copy, PartialEq, Eq, Structural, Debug)]
pub struct SomeipHeader {
    pub service_id: u16,
    pub method_id: u16,
    pub length: u32,
    pub client_id: u16,
    pub session_id: u16,
    pub protocol_version: u8,
    pub interface_version: u8,
    pub message_type: u8,
    pub return_code: u8,
}

/// The header encoded at `pos`: all fields are big-endian reads at their
/// fixed offsets.
pub open spec fn spec_header_at(bytes: Seq<u8>, pos: int) -> SomeipHeader {
    SomeipHeader {
        service_id: be_val(bytes.subrange(pos, pos + 2)) as u16,
        method_id: be_val(bytes.subrange(pos + 2, pos + 4)) as u16,
        length: be_val(bytes.subrange(pos + 4, pos + 8)) as u32,
        client_id: be_val(bytes.subrange(pos + 8, pos + 10)) as u16,
        session_id: be_val(bytes.subrange(pos + 10, pos + 12)) as u16,
        protocol_version: bytes[pos + 12],
        interface_version: bytes[pos + 13],
        message_type: bytes[pos + 14],
        return_code: bytes[pos + 15],
    }
}

/// Reads the SOME/IP header at `pos`; `None` when fewer than 16 bytes
/// remain.
pub fn parse_someip_header(bytes: &Vec<u8>, pos: usize) -> (r: Option<SomeipHeader>)
    ensures
        (match r {
            Some(h) => pos + 16 <= bytes@.len() && h == spec_header_at(bytes@, pos as int),
            None => pos + 16 > bytes@.len(),
        }),
{
    let n = bytes.len();
    if pos > n || n - pos < 16 {
        return None;
    }
    let service_id = crate::wire::read_be(bytes, pos, 2) as u16;
    let method_id = crate::wire::read_be(bytes, pos + 2, 2) as u16;
    let length = crate::wire::read_be(bytes, pos + 4, 4) as u32;
    let client_id = crate::wire::read_be(bytes, pos + 8, 2) as u16;
    let session_id = crate::wire::read_be(bytes, pos + 10, 2) as u16;
    proof {
        crate::wire::lemma_pow256_values();
        crate::wire::lemma_be_val_bound(bytes@.subrange(pos as int, pos + 2));
        crate::wire::lemma_be_val_bound(bytes@.subrange(pos + 2, pos + 4));
        crate::wire::lemma_be_val_bound(bytes@.subrange(pos + 4, pos + 8));
        crate::wire::lemma_be_val_bound(bytes@.subrange(pos + 8, pos + 10));
        crate::wire::lemma_be_val_bound(bytes@.subrange(pos + 10, pos + 12));
    }
    Some(
        SomeipHeader {
            service_id,
            method_id,
            length,
            client_id,
            session_id,
            protocol_version: bytes[pos + 12],
            interface_version: bytes[pos + 13],
            message_type: bytes[pos + 14],
            return_code: bytes[pos + 15],
        },
    )
}

/// Service Discovery detection: the reserved service and method pair, and
/// nothing else, regardless of transport.
pub fn check_is_sd(service_id: u16, method_id: u16) -> (r: bool)
    ensures
        r == (service_id == 0xFFFF && method_id == 0x8100),
{
    service_id == 0xFFFF && method_id == 0x8100
}

/// The same detection under the second spelling the parsers used.
pub fn check_if_sd(service_id: u16, method_id: u16) -> (r: bool)
    ensures
        r == (service_id == 0xFFFF && method_id == 0x8100),
{
    service_id == 0xFFFF && method_id == 0x8100
}

/// Whether a whole well-formed SOME/IP message sits at `pos`: a full
/// header, a length of at least 8 (it counts from the client id on), and
/// that many bytes present.
pub open spec fn valid_someip_at(bytes: Seq<u8>, pos: int) -> bool {
    &&& pos + 16 <= bytes.len()
    &&& be_val(bytes.subrange(pos + 4, pos + 8)) >= 8
    &&& pos + 8 + be_val(bytes.subrange(pos + 4, pos + 8)) <= bytes.len()
}

/// End position of the message at `pos`.
pub open spec fn someip_end(bytes: Seq<u8>, pos: int) -> int {
    pos + 8 + be_val(bytes.subrange(pos + 4, pos + 8))
}

/// The back-to-back message ranges of one datagram payload ("PDU
/// multiplexing"), read from `pos` until the bytes stop forming whole
/// messages.
pub open spec fn spec_pdu_ranges(bytes: Seq<u8>, pos: int) -> Seq<(int, int)>
    decreases bytes.len() - pos,
{
    if pos < 0 || !valid_someip_at(bytes, pos) {
        Seq::empty()
    } else {
        seq![(pos, someip_end(bytes, pos))] + spec_pdu_ranges(bytes, someip_end(bytes, pos))
    }
}

/// Where the message ranges of a payload stop; bytes after it (when it is
/// not the payload's end) are a truncated or foreign tail.
pub open spec fn spec_pdu_stop(bytes: Seq<u8>, pos: int) -> int
    decreases bytes.len() - pos,
{
    if pos < 0 || !valid_someip_at(bytes, pos) {
        pos
    } else {
        spec_pdu_stop(bytes, someip_end(bytes, pos))
    }
}

/// Classification of a plain message's type byte.
pub open spec fn spec_classify(b: u8) -> SomeipMessageType {
    if b == 0x00 {
        SomeipMessageType::Request
    } else if b == 0x01 {
        SomeipMessageType::RequestWithoutResponse
    } else if b == 0x02 {
        SomeipMessageType::Notification
    } else if b == 0x80 {
        SomeipMessageType::Response
    } else {
        SomeipMessageType::ResponseWithError
    }
}

/// Classifies a plain message's type byte; anything unrecognized reads as
/// an errored response, as the parsers treated it.
pub fn classify_message_type(b: u8) -> (r: SomeipMessageType)
    ensures
        r == spec_classify(b),
{
    if b == 0x00 {
        SomeipMessageType::Request
    } else if b == 0x01 {
        SomeipMessageType::RequestWithoutResponse
    } else if b == 0x02 {
        SomeipMessageType::Notification
    } else if b == 0x80 {
        SomeipMessageType::Response
    } else {
        SomeipMessageType::ResponseWithError
    }
}

/// Whether a message-type byte carries the segmentation (TP) flag.
pub open spec fn spec_is_tp(b: u8) -> bool {
    b == 0x20 || b == 0x21 || b == 0x22 || b == 0xA0 || b == 0xA1
}

pub fn is_tp_message_type(b: u8) -> (r: bool)
    ensures
        r == spec_is_tp(b),
{
    b == 0x20 || b == 0x21 || b == 0x22 || b == 0xA0 || b == 0xA1
}

/// The raw kind of a message-type byte, segmentation flag included.
pub open spec fn spec_raw_kind(b: u8) -> SomeipRawMessageType {
    if b == 0x00 {
        SomeipRawMessageType::Request
    } else if b == 0x01 {
        SomeipRawMessageType::RequestNoResponse
    } else if b == 0x02 {
        SomeipRawMessageType::Notification
    } else if b == 0x80 {
        SomeipRawMessageType::Response
    } else if b == 0x20 {
        SomeipRawMessageType::TpRequest
    } else if b == 0x21 {
        SomeipRawMessageType::TpRequestNoResponse
    } else if b == 0x22 {
        SomeipRawMessageType::TpNotification
    } else if b == 0xA0 {
        SomeipRawMessageType::TpResponse
    } else {
        SomeipRawMessageType::Response
    }
}

pub fn raw_message_kind(b: u8) -> (r: SomeipRawMessageType)
    ensures
        r == spec_raw_kind(b),
{
    if b == 0x00 {
        SomeipRawMessageType::Request
    } else if b == 0x01 {
        SomeipRawMessageType::RequestNoResponse
    } else if b == 0x02 {
        SomeipRawMessageType::Notification
    } else if b == 0x80 {
        SomeipRawMessageType::Response
    } else if b == 0x20 {
        SomeipRawMessageType::TpRequest
    } else if b == 0x21 {
        SomeipRawMessageType::TpRequestNoResponse
    } else if b == 0x22 {
        SomeipRawMessageType::TpNotification
    } else if b == 0xA0 {
        SomeipRawMessageType::TpResponse
    } else {
        SomeipRawMessageType::Response
    }
}

/// The classified message the range `(a, b)` of a payload yields.
pub open spec fn spec_message_at(
    ts: u64,
    transport: SomeipTransportPortocol,
    bytes: Seq<u8>,
    a: int,
    b: int,
) -> SomeipMessageView {
    let h = spec_header_at(bytes, a);
    SomeipMessageView {
        timestamp: ts,
        message_type: spec_classify(h.message_type),
        service_id: h.service_id,
        method_id: h.method_id,
        client_id: h.client_id,
        session_id: h.session_id,
        return_code: h.return_code,
        transport_protocol: transport,
        payload: bytes.subrange(a + 16, b),
    }
}

/// The classified messages of one datagram payload, in wire order.
pub open spec fn spec_payload_messages(
    ts: u64,
    transport: SomeipTransportPortocol,
    bytes: Seq<u8>,
) -> Seq<SomeipMessageView> {
    spec_pdu_ranges(bytes, 0).map_values(
        |r: (int, int)| spec_message_at(ts, transport, bytes, r.0, r.1),
    )
}

/// Splits one datagram payload into its classified SOME/IP messages, in
/// order; `clean` reports whether the payload ended exactly at a message
/// boundary (a dirty tail is the caller's truncation count).
pub fn split_someip_messages(ts: u64, transport: SomeipTransportPortocol, bytes: &Vec<u8>) -> (r: (
    Vec<SomeipMessage>,
    Vec<u8>,
    bool,
))
    ensures
        r.0@.map_values(|m: SomeipMessage| m@) == spec_payload_messages(ts, transport, bytes@),
        r.1@ == spec_pdu_ranges(bytes@, 0).map_values(|rg: (int, int)| bytes@[rg.0 + 14]),
        r.2 == (spec_pdu_stop(bytes@, 0) == bytes@.len()),
{
    let n = bytes.len();
    let mut out: Vec<SomeipMessage> = Vec::new();
    let mut raws: Vec<u8> = Vec::new();
    let mut pos: usize = 0;
    let ghost mut done: Seq<(int, int)> = Seq::empty();
    proof {
        assert(out@.map_values(|m: SomeipMessage| m@) =~= Seq::<SomeipMessageView>::empty());
        assert(raws@ =~= Seq::<(int, int)>::empty().map_values(
            |rg: (int, int)| bytes@[rg.0 + 14],
        ));
        assert(Seq::<(int, int)>::empty() + spec_pdu_ranges(bytes@, 0) =~= spec_pdu_ranges(
            bytes@,
            0,
        ));
    }
    loop
        invariant_except_break
            pos <= n,
            n == bytes@.len(),
            spec_pdu_ranges(bytes@, 0) == done + spec_pdu_ranges(bytes@, pos as int),
            out@.map_values(|m: SomeipMessage| m@) == done.map_values(
                |r: (int, int)| spec_message_at(ts, transport, bytes@, r.0, r.1),
            ),
            raws@ == done.map_values(|rg: (int, int)| bytes@[rg.0 + 14]),
            spec_pdu_stop(bytes@, 0) == spec_pdu_stop(bytes@, pos as int),
        ensures
            pos <= n,
            n == bytes@.len(),
            done == spec_pdu_ranges(bytes@, 0),
            out@.map_values(|m: SomeipMessage| m@) == done.map_values(
                |r: (int, int)| spec_message_at(ts, transport, bytes@, r.0, r.1),
            ),
            raws@ == done.map_values(|rg: (int, int)| bytes@[rg.0 + 14]),
            spec_pdu_stop(bytes@, 0) == pos as int,
        decreases n - pos,
    {
        let h = match parse_someip_header(bytes, pos) {
            Some(h) => h,
            None => {
                proof {
                    assert(!valid_someip_at(bytes@, pos as int));
                    assert(spec_pdu_ranges(bytes@, pos as int) =~= Seq::<(int, int)>::empty());
                    assert(done + Seq::<(int, int)>::empty() =~= done);
                    assert(done == spec_pdu_ranges(bytes@, 0));
                }
                break ;
            },
        };
        proof {
            crate::wire::lemma_pow256_values();
            crate::wire::lemma_be_val_bound(bytes@.subrange(pos + 4, pos + 8));
        }
        if h.length < 8 || (h.length - 8) as usize > n - (pos + 16) {
            proof {
                assert(!valid_someip_at(bytes@, pos as int));
                assert(spec_pdu_ranges(bytes@, pos as int) =~= Seq::<(int, int)>::empty());
                assert(done + Seq::<(int, int)>::empty() =~= done);
                assert(done == spec_pdu_ranges(bytes@, 0));
            }
            break ;
        }
        let end: usize = pos + 16 + (h.length - 8) as usize;
        proof {
            assert(valid_someip_at(bytes@, pos as int));
            assert(someip_end(bytes@, pos as int) == end as int);
        }
        let mut payload: Vec<u8> = Vec::new();
        let mut q: usize = pos + 16;
        while q < end
            invariant
                pos + 16 <= q <= end,
                end <= n,
                n == bytes@.len(),
                payload@ =~= bytes@.subrange(pos + 16, q as int),
            decreases end - q,
        {
            payload.push(bytes[q]);
            q += 1;
        }
        proof {
            assert(payload@ =~= bytes@.subrange(pos + 16, end as int));
        }
        let msg = SomeipMessage {
            timestamp: ts,
            message_type: classify_message_type(h.message_type),
            service_id: h.service_id,
            method_id: h.method_id,
            client_id: h.client_id,
            session_id: h.session_id,
            return_code: h.return_code,
            transport_protocol: transport,
            payload,
        };
        proof {
            assert(msg@ == spec_message_at(ts, transport, bytes@, pos as int, end as int));
        }
        let ghost old_out = out@;
        let ghost old_pos = pos as int;
        let ghost old_done = done;
        let ghost old_raws = raws@;
        out.push(msg);
        raws.push(h.message_type);
        proof {
            assert(h.message_type == bytes@[old_pos + 14]);
            let all = spec_pdu_ranges(bytes@, 0);
            assert(spec_pdu_ranges(bytes@, old_pos) == seq![(old_pos, end as int)]
                + spec_pdu_ranges(bytes@, end as int));
            done = old_done.push((old_pos, end as int));
            assert(all =~= done + spec_pdu_ranges(bytes@, end as int)) by {
                assert(all == old_done + (seq![(old_pos, end as int)] + spec_pdu_ranges(
                    bytes@,
                    end as int,
                )));
            }
            let lhs = out@.map_values(|m: SomeipMessage| m@);
            let rhs = done.map_values(|r: (int, int)| spec_message_at(ts, transport, bytes@, r.0, r.1));
            assert(out@.len() == old_out.len() + 1);
            assert(done.len() == old_done.len() + 1);
            assert(old_out.len() == old_done.len()) by {
                assert(old_out.map_values(|m: SomeipMessage| m@).len() == old_done.map_values(
                    |r: (int, int)| spec_message_at(ts, transport, bytes@, r.0, r.1),
                ).len());
            }
            assert(lhs.len() == rhs.len());
            assert forall|i: int| 0 <= i < lhs.len() implies lhs[i] == rhs[i] by {
                if i < old_out.len() {
                    assert(out@[i] == old_out[i]);
                    assert(done[i] == old_done[i]);
                    assert(old_out.map_values(|m: SomeipMessage| m@)[i] == old_done.map_values(
                        |r: (int, int)| spec_message_at(ts, transport, bytes@, r.0, r.1),
                    )[i]);
                } else {
                    assert(out@[i] == msg);
                    assert(done[i] == (old_pos, end as int));
                }
            }
            assert(lhs =~= rhs);
            assert(raws@ =~= done.map_values(|rg: (int, int)| bytes@[rg.0 + 14])) by {
                assert(raws@.len() == done.len());
                assert(forall|q: int|
                    0 <= q < old_raws.len() ==> raws@[q] == old_raws[q] && done[q]
                        == old_done[q]);
            }
        }
        pos = end;
    }
    let clean = pos == n;
    (out, raws, clean)
}

/// PDU multiplexing law: a payload made of two whole well-formed SOME/IP
/// messages laid back to back yields exactly those two messages, in their
/// original order.
pub proof fn lemma_pdu_multiplexing(
    ts: u64,
    transport: SomeipTransportPortocol,
    bytes: Seq<u8>,
    mid: int,
)
    requires
        0 < mid < bytes.len(),
        valid_someip_at(bytes, 0),
        someip_end(bytes, 0) == mid,
        valid_someip_at(bytes, mid),
        someip_end(bytes, mid) == bytes.len(),
    ensures
        spec_payload_messages(ts, transport, bytes) == seq![
            spec_message_at(ts, transport, bytes, 0, mid),
            spec_message_at(ts, transport, bytes, mid, bytes.len() as int),
        ],
{
    let e2 = someip_end(bytes, mid);
    assert(!valid_someip_at(bytes, e2));
    assert(spec_pdu_ranges(bytes, e2) =~= Seq::<(int, int)>::empty());
    assert(spec_pdu_ranges(bytes, mid) =~= seq![(mid, e2)]);
    assert(spec_pdu_ranges(bytes, 0) =~= seq![(0int, mid), (mid, e2)]);
    assert(spec_payload_messages(ts, transport, bytes) =~= seq![
        spec_message_at(ts, transport, bytes, 0, mid),
        spec_message_at(ts, transport, bytes, mid, bytes.len() as int),
    ]);
}

/// One Service Discovery entry (16 bytes on the wire).
#[derive(Clone, Copy, PartialEq, Eq, Structural, Debug)]
pub struct SdEntry {
    pub entry_type: u8,
    pub service_id: u16,
    pub instance_id: u16,
    pub major_version: u8,
    pub ttl: u32,
    pub minor_or_counts: u32,
}

/// The entry encoded at `pos` of an SD payload.
pub open spec fn spec_sd_entry_at(bytes: Seq<u8>, pos: int) -> SdEntry {
    SdEntry {
        entry_type: bytes[pos],
        service_id: be_val(bytes.subrange(pos + 4, pos + 6)) as u16,
        instance_id: be_val(bytes.subrange(pos + 6, pos + 8)) as u16,
        major_version: bytes[pos + 8],
        ttl: be_val(bytes.subrange(pos + 9, pos + 12)) as u32,
        minor_or_counts: be_val(bytes.subrange(pos + 12, pos + 16)) as u32,
    }
}

/// The whole 16-byte entries within `bytes[pos..end]`, in order.
pub open spec fn spec_sd_entries(bytes: Seq<u8>, pos: int, end: int) -> Seq<SdEntry>
    decreases end - pos,
{
    if pos < 0 || pos + 16 > end || end > bytes.len() {
        Seq::empty()
    } else {
        seq![spec_sd_entry_at(bytes, pos)] + spec_sd_entries(bytes, pos + 16, end)
    }
}

/// Parses a Service Discovery payload: flags and reserved bytes, the
/// entries-length field, then one entry per 16 bytes of the entry area.
/// `None` when the payload is too short for its own entries-length.
pub fn parse_sd_entries(bytes: &Vec<u8>) -> (r: Option<Vec<SdEntry>>)
    ensures
        (match r {
            Some(es) => {
                &&& bytes@.len() >= 8
                &&& 8 + be_val(bytes@.subrange(4, 8)) <= bytes@.len()
                &&& es@ == spec_sd_entries(bytes@, 8, 8 + be_val(bytes@.subrange(4, 8)) as int)
            },
            None => bytes@.len() < 8 || 8 + be_val(bytes@.subrange(4, 8)) > bytes@.len(),
        }),
{
    let n = bytes.len();
    if n < 8 {
        return None;
    }
    let elen = crate::wire::read_be(bytes, 4, 4);
    proof {
        crate::wire::lemma_pow256_values();
        crate::wire::lemma_be_val_bound(bytes@.subrange(4, 8));
    }
    if elen > (n - 8) as u64 {
        return None;
    }
    let end: usize = 8 + elen as usize;
    let mut out: Vec<SdEntry> = Vec::new();
    let mut pos: usize = 8;
    while end - pos >= 16
        invariant
            8 <= pos <= end,
            end <= n,
            n == bytes@.len(),
            spec_sd_entries(bytes@, 8, end as int) == out@ + spec_sd_entries(
                bytes@,
                pos as int,
                end as int,
            ),
        decreases end - pos,
    {
        let ghost old_out = out@;
        let e = SdEntry {
            entry_type: bytes[pos],
            service_id: crate::wire::read_be(bytes, pos + 4, 2) as u16,
            instance_id: crate::wire::read_be(bytes, pos + 6, 2) as u16,
            major_version: bytes[pos + 8],
            ttl: crate::wire::read_be(bytes, pos + 9, 3) as u32,
            minor_or_counts: crate::wire::read_be(bytes, pos + 12, 4) as u32,
        };
        proof {
            crate::wire::lemma_pow256_values();
            crate::wire::lemma_be_val_bound(bytes@.subrange(pos + 4, pos + 6));
            crate::wire::lemma_be_val_bound(bytes@.subrange(pos + 6, pos + 8));
            crate::wire::lemma_be_val_bound(bytes@.subrange(pos + 9, pos + 12));
            crate::wire::lemma_be_val_bound(bytes@.subrange(pos + 12, pos + 16));
            assert(e == spec_sd_entry_at(bytes@, pos as int));
        }
        out.push(e);
        proof {
            assert(spec_sd_entries(bytes@, pos as int, end as int) == seq![
                spec_sd_entry_at(bytes@, pos as int),
            ] + spec_sd_entries(bytes@, pos + 16, end as int));
            assert(old_out + spec_sd_entries(bytes@, pos as int, end as int) =~= out@
                + spec_sd_entries(bytes@, pos + 16, end as int));
        }
        pos = pos + 16;
    }
    proof {
        assert(spec_sd_entries(bytes@, pos as int, end as int) =~= Seq::<SdEntry>::empty());
        assert(out@ + Seq::<SdEntry>::empty() =~= out@);
    }
    Some(out)
}

/// The logical event kind an SD entry type denotes, if the analyzer
/// reports it.
pub open spec fn spec_sd_event_kind(entry_type: u8) -> Option<SomeipMessageType> {
    if entry_type == 0x01 {
        Some(SomeipMessageType::ServiceOffer)
    } else if entry_type == 0x06 {
        Some(SomeipMessageType::ServiceSubscribe)
    } else if entry_type == 0x07 {
        Some(SomeipMessageType::ServiceSubscribeAck)
    } else {
        None
    }
}

pub fn sd_event_kind(entry_type: u8) -> (r: Option<SomeipMessageType>)
    ensures
        r == spec_sd_event_kind(entry_type),
{
    if entry_type == 0x01 {
        Some(SomeipMessageType::ServiceOffer)
    } else if entry_type == 0x06 {
        Some(SomeipMessageType::ServiceSubscribe)
    } else if entry_type == 0x07 {
        Some(SomeipMessageType::ServiceSubscribeAck)
    } else {
        None
    }
}

/// One logical Service Discovery event: the entry's own service id,
/// instance id, major version and time-to-live, never the outer
/// transport-level pair.
#[derive(Clone, Copy, PartialEq, Eq, Structural, Debug)]
pub struct SdEvent {
    pub timestamp: u64,
    pub kind: SomeipMessageType,
    pub service_id: u16,
    pub instance_id: u16,
    pub major_version: u8,
    pub ttl: u32,
}

/// The event one entry yields: its own fields under the recognized kind,
/// or nothing for an unrecognized entry type.
pub open spec fn spec_sd_event_of(ts: u64, e: SdEntry) -> Option<SdEvent> {
    match spec_sd_event_kind(e.entry_type) {
        None => None,
        Some(k) => Some(
            SdEvent {
                timestamp: ts,
                kind: k,
                service_id: e.service_id,
                instance_id: e.instance_id,
                major_version: e.major_version,
                ttl: e.ttl,
            },
        ),
    }
}

/// The events of the first `k` entries of a list, in entry order.
pub open spec fn spec_sd_events_upto(ts: u64, entries: Seq<SdEntry>, k: int) -> Seq<SdEvent>
    decreases k,
{
    if k <= 0 {
        Seq::empty()
    } else {
        spec_sd_events_upto(ts, entries, k - 1) + (match spec_sd_event_of(ts, entries[k - 1]) {
            None => Seq::empty(),
            Some(ev) => seq![ev],
        })
    }
}

/// The events a whole entry list yields: one per recognized entry.
pub open spec fn spec_sd_events_of(ts: u64, entries: Seq<SdEntry>) -> Seq<SdEvent> {
    spec_sd_events_upto(ts, entries, entries.len() as int)
}

/// The events one classified message contributes: a Service Discovery
/// message whose payload carries a parseable entry list yields its
/// entries' events; any other message, and an SD message whose payload is
/// too short for its own entries-length (counted as truncation), yields
/// none.
pub open spec fn spec_message_sd_events(m: SomeipMessageView) -> Seq<SdEvent> {
    if m.service_id == 0xFFFF && m.method_id == 0x8100 {
        if m.payload.len() >= 8 && 8 + be_val(m.payload.subrange(4, 8)) <= m.payload.len() {
            spec_sd_events_of(
                m.timestamp,
                spec_sd_entries(m.payload, 8, 8 + be_val(m.payload.subrange(4, 8)) as int),
            )
        } else {
            Seq::empty()
        }
    } else {
        Seq::empty()
    }
}

/// The events the first `k` messages of a batch contribute, in order.
pub open spec fn spec_messages_sd_events_upto(ms: Seq<SomeipMessageView>, k: int) -> Seq<SdEvent>
    decreases k,
{
    if k <= 0 {
        Seq::empty()
    } else {
        spec_messages_sd_events_upto(ms, k - 1) + spec_message_sd_events(ms[k - 1])
    }
}

/// The events a batch of classified messages contributes, in order.
pub open spec fn spec_messages_sd_events(ms: Seq<SomeipMessageView>) -> Seq<SdEvent> {
    spec_messages_sd_events_upto(ms, ms.len() as int)
}


/// Which link layer a capture channel delivers.
#[derive(Clone, Copy, PartialEq, Eq, Structural, Debug)]
pub enum LinkType {
    Ethernet,
    Sll,
}

/// Ethertype and payload offset of a link frame, when the header is whole:
/// Ethernet carries the ethertype at offset 12, Linux cooked capture (SLL)
/// at offset 14.
pub open spec fn spec_link_payload(link: LinkType, f: Seq<u8>) -> Option<(u16, int)> {
    match link {
        LinkType::Ethernet => if f.len() >= 14 {
            Some((be_val(f.subrange(12, 14)) as u16, 14int))
        } else {
            None
        },
        LinkType::Sll => if f.len() >= 16 {
            Some((be_val(f.subrange(14, 16)) as u16, 16int))
        } else {
            None
        },
    }
}

pub fn parse_link(link: LinkType, f: &Vec<u8>) -> (r: Option<(u16, usize)>)
    ensures
        (match r {
            Some((et, off)) => spec_link_payload(link, f@) == Some((et, off as int)),
            None => spec_link_payload(link, f@) is None,
        }),
{
    proof {
        crate::wire::lemma_pow256_values();
    }
    match link {
        LinkType::Ethernet => {
            if f.len() >= 14 {
                proof {
                    crate::wire::lemma_be_val_bound(f@.subrange(12, 14));
                }
                Some((crate::wire::read_be(f, 12, 2) as u16, 14))
            } else {
                None
            }
        },
        LinkType::Sll => {
            if f.len() >= 16 {
                proof {
                    crate::wire::lemma_be_val_bound(f@.subrange(14, 16));
                }
                Some((crate::wire::read_be(f, 14, 2) as u16, 16))
            } else {
                None
            }
        },
    }
}

/// What one IP header yields: the carried protocol, both addresses, and
/// the payload's byte range within the frame.
#[derive(Clone, Copy, PartialEq, Eq, Structural, Debug)]
pub struct IpInfo {
    pub protocol: u8,
    pub src: IpAddress,
    pub dst: IpAddress,
    pub payload_start: usize,
    pub payload_end: usize,
}

/// The IPv4 header at `pos`: version 4, a header-length of at least five
/// words, and a total length covering the header; the payload runs from
/// the header's end to the total length (clipped to the frame).
pub open spec fn spec_ipv4_at(f: Seq<u8>, pos: int) -> Option<IpInfo> {
    if pos < 0 || pos + 20 > f.len() {
        None
    } else {
        let ihl = (f[pos] & 0x0F) as int;
        let total = be_val(f.subrange(pos + 2, pos + 4)) as int;
        let hdr_end = pos + ihl * 4;
        let limit = if pos + total <= f.len() {
            pos + total
        } else {
            f.len() as int
        };
        if (f[pos] >> 4) != 4 || ihl < 5 || hdr_end > f.len() || limit < hdr_end {
            None
        } else {
            Some(
                IpInfo {
                    protocol: f[pos + 9],
                    src: IpAddress::V4(be_val(f.subrange(pos + 12, pos + 16)) as u32),
                    dst: IpAddress::V4(be_val(f.subrange(pos + 16, pos + 20)) as u32),
                    payload_start: hdr_end as usize,
                    payload_end: limit as usize,
                },
            )
        }
    }
}

pub fn parse_ipv4_at(f: &Vec<u8>, pos: usize) -> (r: Option<IpInfo>)
    ensures
        r == spec_ipv4_at(f@, pos as int),
{
    let n = f.len();
    if pos > n || n - pos < 20 {
        return None;
    }
    let first = f[pos];
    proof {
        assert((first & 0x0F) <= 0x0F) by (bit_vector);
        crate::wire::lemma_pow256_values();
        crate::wire::lemma_be_val_bound(f@.subrange(pos + 2, pos + 4));
        crate::wire::lemma_be_val_bound(f@.subrange(pos + 12, pos + 16));
        crate::wire::lemma_be_val_bound(f@.subrange(pos + 16, pos + 20));
    }
    let ihl: usize = (first & 0x0F) as usize;
    let total: usize = crate::wire::read_be(f, pos + 2, 2) as usize;
    let hdr_len: usize = ihl * 4;
    if (first >> 4) != 4 || ihl < 5 || hdr_len > n - pos {
        proof {
            assert((pos + ihl * 4 > f@.len()) == (hdr_len > n - pos));
        }
        return None;
    }
    let hdr_end: usize = pos + hdr_len;
    let limit: usize = if total <= n - pos {
        pos + total
    } else {
        n
    };
    if limit < hdr_end {
        return None;
    }
    Some(
        IpInfo {
            protocol: f[pos + 9],
            src: IpAddress::V4(crate::wire::read_be(f, pos + 12, 4) as u32),
            dst: IpAddress::V4(crate::wire::read_be(f, pos + 16, 4) as u32),
            payload_start: hdr_end,
            payload_end: limit,
        },
    )
}

/// The IPv6 header at `pos`: fixed 40 bytes, the payload-length field
/// bounding the payload (clipped to the frame).
pub open spec fn spec_ipv6_at(f: Seq<u8>, pos: int) -> Option<IpInfo> {
    if pos < 0 || pos + 40 > f.len() {
        None
    } else {
        let plen = be_val(f.subrange(pos + 4, pos + 6)) as int;
        let limit = if pos + 40 + plen <= f.len() {
            pos + 40 + plen
        } else {
            f.len() as int
        };
        Some(
            IpInfo {
                protocol: f[pos + 6],
                src: IpAddress::V6(
                    be_val(f.subrange(pos + 8, pos + 16)) as u64,
                    be_val(f.subrange(pos + 16, pos + 24)) as u64,
                ),
                dst: IpAddress::V6(
                    be_val(f.subrange(pos + 24, pos + 32)) as u64,
                    be_val(f.subrange(pos + 32, pos + 40)) as u64,
                ),
                payload_start: (pos + 40) as usize,
                payload_end: limit as usize,
            },
        )
    }
}

pub fn parse_ipv6_at(f: &Vec<u8>, pos: usize) -> (r: Option<IpInfo>)
    ensures
        r == spec_ipv6_at(f@, pos as int),
{
    let n = f.len();
    if pos > n || n - pos < 40 {
        return None;
    }
    let plen: usize = crate::wire::read_be(f, pos + 4, 2) as usize;
    proof {
        crate::wire::lemma_pow256_values();
        crate::wire::lemma_be_val_bound(f@.subrange(pos + 4, pos + 6));
        crate::wire::lemma_be_val_bound(f@.subrange(pos + 8, pos + 16));
        crate::wire::lemma_be_val_bound(f@.subrange(pos + 16, pos + 24));
        crate::wire::lemma_be_val_bound(f@.subrange(pos + 24, pos + 32));
        crate::wire::lemma_be_val_bound(f@.subrange(pos + 32, pos + 40));
    }
    let limit: usize = if plen <= n - (pos + 40) {
        pos + 40 + plen
    } else {
        n
    };
    Some(
        IpInfo {
            protocol: f[pos + 6],
            src: IpAddress::V6(
                crate::wire::read_be(f, pos + 8, 8),
                crate::wire::read_be(f, pos + 16, 8),
            ),
            dst: IpAddress::V6(
                crate::wire::read_be(f, pos + 24, 8),
                crate::wire::read_be(f, pos + 32, 8),
            ),
            payload_start: pos + 40,
            payload_end: limit,
        },
    )
}

/// Ports and payload offset of the UDP header at `pos`.
pub open spec fn spec_udp_at(f: Seq<u8>, pos: int, end: int) -> Option<(u16, u16, int)> {
    if pos < 0 || pos + 8 > end || end > f.len() {
        None
    } else {
        Some(
            (
                be_val(f.subrange(pos, pos + 2)) as u16,
                be_val(f.subrange(pos + 2, pos + 4)) as u16,
                pos + 8,
            ),
        )
    }
}

pub fn parse_udp_at(f: &Vec<u8>, pos: usize, end: usize) -> (r: Option<(u16, u16, usize)>)
    ensures
        (match r {
            Some((sp, dp, off)) => spec_udp_at(f@, pos as int, end as int) == Some(
                (sp, dp, off as int),
            ),
            None => spec_udp_at(f@, pos as int, end as int) is None,
        }),
{
    let n = f.len();
    if pos > end || end > n || end - pos < 8 {
        return None;
    }
    proof {
        crate::wire::lemma_pow256_values();
        crate::wire::lemma_be_val_bound(f@.subrange(pos as int, pos + 2));
        crate::wire::lemma_be_val_bound(f@.subrange(pos + 2, pos + 4));
    }
    Some(
        (
            crate::wire::read_be(f, pos, 2) as u16,
            crate::wire::read_be(f, pos + 2, 2) as u16,
            pos + 8,
        ),
    )
}

/// Ports and payload offset of the TCP header at `pos` (the data offset
/// counts 32-bit words).
pub open spec fn spec_tcp_at(f: Seq<u8>, pos: int, end: int) -> Option<(u16, u16, int)> {
    if pos < 0 || pos + 20 > end || end > f.len() {
        None
    } else {
        let doff = ((f[pos + 12] >> 4) as int) * 4;
        if doff < 20 || pos + doff > end {
            None
        } else {
            Some(
                (
                    be_val(f.subrange(pos, pos + 2)) as u16,
                    be_val(f.subrange(pos + 2, pos + 4)) as u16,
                    pos + doff,
                ),
            )
        }
    }
}

pub fn parse_tcp_at(f: &Vec<u8>, pos: usize, end: usize) -> (r: Option<(u16, u16, usize)>)
    ensures
        (match r {
            Some((sp, dp, off)) => spec_tcp_at(f@, pos as int, end as int) == Some(
                (sp, dp, off as int),
            ),
            None => spec_tcp_at(f@, pos as int, end as int) is None,
        }),
{
    let n = f.len();
    if pos > end || end > n || end - pos < 20 {
        return None;
    }
    let doff: usize = ((f[pos + 12] >> 4) as usize) * 4;
    if doff < 20 || doff > end - pos {
        return None;
    }
    proof {
        crate::wire::lemma_pow256_values();
        crate::wire::lemma_be_val_bound(f@.subrange(pos as int, pos + 2));
        crate::wire::lemma_be_val_bound(f@.subrange(pos + 2, pos + 4));
    }
    Some(
        (
            crate::wire::read_be(f, pos, 2) as u16,
            crate::wire::read_be(f, pos + 2, 2) as u16,
            pos + doff,
        ),
    )
}

/// Copies `bytes[a..b]` into an owned vector.
pub fn copy_range(bytes: &Vec<u8>, a: usize, b: usize) -> (r: Vec<u8>)
    requires
        a <= b <= bytes@.len(),
    ensures
        r@ == bytes@.subrange(a as int, b as int),
{
    let mut out: Vec<u8> = Vec::new();
    let mut q = a;
    while q < b
        invariant
            a <= q <= b,
            b <= bytes@.len(),
            out@ =~= bytes@.subrange(a as int, q as int),
        decreases b - q,
    {
        out.push(bytes[q]);
        q += 1;
    }
    proof {
        assert(out@ =~= bytes@.subrange(a as int, b as int));
    }
    out
}

/// Counters a completed run reports: frames seen, messages classified,
/// Service Discovery events, and drops by cause.
#[derive(Clone, Copy, PartialEq, Eq, Structural, Debug)]
pub struct DemuxStats {
    pub frames: u64,
    pub messages: u64,
    pub sd_events: u64,
    pub unknown_link_protocol: u64,
    pub truncated: u64,
    pub dropped_segments: u64,
}

/// A payload is plain when it splits cleanly into messages, none Service
/// Discovery and none segmented.
pub open spec fn spec_plain_payload(payload: Seq<u8>) -> bool {
    &&& spec_pdu_stop(payload, 0) == payload.len()
    &&& (forall|i: int|
        0 <= i < spec_pdu_ranges(payload, 0).len() ==> {
            let h = spec_header_at(payload, (#[trigger] spec_pdu_ranges(payload, 0)[i]).0);
            !(h.service_id == 0xFFFF && h.method_id == 0x8100) && !spec_is_tp(h.message_type)
        })
}

/// What the link and network layers of a frame yield: the IP header's
/// protocol, addresses and payload range, when the frame parses that far.
pub open spec fn spec_frame_ip(link: LinkType, f: Seq<u8>) -> Option<IpInfo> {
    match spec_link_payload(link, f) {
        None => None,
        Some((et, off)) => if et == 0x0800 {
            spec_ipv4_at(f, off)
        } else if et == 0x86DD {
            spec_ipv6_at(f, off)
        } else {
            None
        },
    }
}

/// The UDP payload a frame carries, when it parses down to a UDP datagram.
pub open spec fn spec_udp_datagram(link: LinkType, f: Seq<u8>) -> Option<Seq<u8>> {
    match spec_frame_ip(link, f) {
        None => None,
        Some(ip) => if ip.protocol != 17 {
            None
        } else {
            match spec_udp_at(f, ip.payload_start as int, ip.payload_end as int) {
                None => None,
                Some((_, _, uoff)) => Some(f.subrange(uoff, ip.payload_end as int)),
            }
        },
    }
}

/// The messages a frame yields on the plain path -- a UDP datagram whose
/// payload splits cleanly into messages none of which is Service Discovery
/// or segmented. On this path the demultiplexer's answer is exactly these.
pub open spec fn spec_plain_udp_messages(link: LinkType, ts: u64, f: Seq<u8>) -> Option<
    Seq<SomeipMessageView>,
> {
    match spec_udp_datagram(link, f) {
        None => None,
        Some(payload) => if spec_plain_payload(payload) {
            Some(spec_payload_messages(ts, SomeipTransportPortocol::UDP, payload))
        } else {
            None
        },
    }
}

/// Stateless dispatch per frame, with the per-flow segment table, the
/// per-connection stream accumulators and the Service Discovery event log
/// as its only state.
pub struct PacketDemultiplexer {
    pub stats: DemuxStats,
    pub tp: crate::reassembly::TpReassembler,
    pub tcp: crate::reassembly::TcpReassembler,
    /// Every Service Discovery event seen, in wire order: one per
    /// recognized entry, each carrying the entry's own fields in full.
    pub sd_log: Vec<SdEvent>,
}

impl PacketDemultiplexer {
    pub fn new() -> (r: PacketDemultiplexer)
        ensures
            r.stats == (DemuxStats {
                frames: 0,
                messages: 0,
                sd_events: 0,
                unknown_link_protocol: 0,
                truncated: 0,
                dropped_segments: 0,
            }),
            crate::reassembly::tp_wf(crate::reassembly::tp_view(r.tp)),
            crate::reassembly::tcp_wf(crate::reassembly::tcp_view(r.tcp)),
            r.sd_log@ == Seq::<SdEvent>::empty(),
    {
        PacketDemultiplexer {
            stats: DemuxStats {
                frames: 0,
                messages: 0,
                sd_events: 0,
                unknown_link_protocol: 0,
                truncated: 0,
                dropped_segments: 0,
            },
            tp: crate::reassembly::TpReassembler::new(),
            tcp: crate::reassembly::TcpReassembler::new(),
            sd_log: Vec::new(),
        }
    }

    /// Takes one captured frame apart; malformed input at any layer drops
    /// the frame (counted), never fails. On the plain UDP path the answer
    /// is exactly the payload's classified messages, in order. On any UDP
    /// datagram the Service Discovery log grows by exactly one event per
    /// recognized entry of each SD message, in order, each carrying the
    /// entry's own service id, instance id, major version and time-to-live.
    /// A frame whose IP protocol is neither UDP nor TCP is dropped
    /// silently, as non-SOME/IP traffic: no message, no event, no drop
    /// counter.
    pub fn handle_frame(&mut self, link: LinkType, ts: u64, frame: &Vec<u8>) -> (r: Vec<
        SomeipMessage,
    >)
        requires
            crate::reassembly::tp_wf(crate::reassembly::tp_view(old(self).tp)),
            crate::reassembly::tcp_wf(crate::reassembly::tcp_view(old(self).tcp)),
        ensures
            crate::reassembly::tp_wf(crate::reassembly::tp_view(final(self).tp)),
            crate::reassembly::tcp_wf(crate::reassembly::tcp_view(final(self).tcp)),
            final(self).stats.frames as int == (if old(self).stats.frames
                < 0xFFFF_FFFF_FFFF_FFFF {
                old(self).stats.frames as int + 1
            } else {
                old(self).stats.frames as int
            }),
            (match spec_plain_udp_messages(link, ts, frame@) {
                Some(ms) => r@.map_values(|m: SomeipMessage| m@) == ms,
                None => true,
            }),
            (match spec_udp_datagram(link, frame@) {
                Some(payload) => final(self).sd_log@ == old(self).sd_log@
                    + spec_messages_sd_events(
                    spec_payload_messages(ts, SomeipTransportPortocol::UDP, payload),
                ),
                None => true,
            }),
            (match spec_frame_ip(link, frame@) {
                Some(ip) => (ip.protocol != 17 && ip.protocol != 6) ==> (r@.len() == 0
                    && final(self).tp == old(self).tp && final(self).tcp == old(self).tcp
                    && final(self).sd_log == old(self).sd_log && final(self).stats
                    == (DemuxStats { frames: final(self).stats.frames, ..old(self).stats })),
                None => true,
            }),
    {
        if self.stats.frames < 0xFFFF_FFFF_FFFF_FFFF {
            self.stats.frames = self.stats.frames + 1;
        }
        let ghost frames1 = self.stats.frames;
        let (ethertype, off) = match parse_link(link, frame) {
            Some(x) => x,
            None => {
                self.bump_truncated();
                return Vec::new();
            },
        };
        let ip = if ethertype == 0x0800 {
            parse_ipv4_at(frame, off)
        } else if ethertype == 0x86DD {
            parse_ipv6_at(frame, off)
        } else {
            self.bump_unknown_link();
            return Vec::new();
        };
        let ip = match ip {
            Some(x) => x,
            None => {
                self.bump_truncated();
                return Vec::new();
            },
        };
        if ip.protocol == 17 {
            let (sp, dp, uoff) = match parse_udp_at(frame, ip.payload_start, ip.payload_end) {
                Some(x) => x,
                None => {
                    self.bump_truncated();
                    return Vec::new();
                },
            };
            let payload = copy_range(frame, uoff, ip.payload_end);
            let (msgs, raws, clean) = split_someip_messages(
                ts,
                SomeipTransportPortocol::UDP,
                &payload,
            );
            if !clean {
                self.bump_truncated();
            }
            let ghost msgs_views = msgs@.map_values(|m: SomeipMessage| m@);
            let ghost msgs_snapshot = msgs@;
            proof {
                assert(raws@.len() == msgs@.len()) by {
                    assert(msgs_views.len() == spec_payload_messages(
                        ts,
                        SomeipTransportPortocol::UDP,
                        payload@,
                    ).len());
                }
            }
            proof {
                assert(self.sd_log@ == old(self).sd_log@);
            }
            let out = self.process_messages(ip.src, ip.dst, sp, dp, msgs, &raws);
            proof {
                let psub = frame@.subrange(uoff as int, ip.payload_end as int);
                assert(payload@ == psub);
                assert(spec_udp_datagram(link, frame@) == Some(psub));
                assert(msgs_views == spec_payload_messages(
                    ts,
                    SomeipTransportPortocol::UDP,
                    psub,
                ));
                assert(self.sd_log@ == old(self).sd_log@ + spec_messages_sd_events(
                    spec_payload_messages(ts, SomeipTransportPortocol::UDP, psub),
                ));
                match spec_plain_udp_messages(link, ts, frame@) {
                    Some(ms) => {
                        let psub = frame@.subrange(uoff as int, ip.payload_end as int);
                        assert(payload@ == psub);
                        assert(spec_plain_payload(psub));
                        assert(ms == spec_payload_messages(
                            ts,
                            SomeipTransportPortocol::UDP,
                            psub,
                        ));
                        assert(msgs_views == ms);
                        let rngs = spec_pdu_ranges(psub, 0);
                        assert(raws@ == rngs.map_values(|rg: (int, int)| psub[rg.0 + 14]));
                        assert forall|q: int|
                            0 <= q < msgs_snapshot.len() implies (!((
                        #[trigger] msgs_snapshot[q]).service_id == 0xFFFF
                            && msgs_snapshot[q].method_id == 0x8100) && !spec_is_tp(
                            raws@[q],
                        )) by {
                            let h = spec_header_at(psub, rngs[q].0);
                            assert(!(h.service_id == 0xFFFF && h.method_id == 0x8100)
                                && !spec_is_tp(h.message_type));
                            assert(msgs_snapshot.map_values(|m: SomeipMessage| m@)[q]
                                == msgs_views[q]);
                            assert(msgs_snapshot[q]@ == ms[q]);
                            assert(ms[q] == spec_message_at(
                                ts,
                                SomeipTransportPortocol::UDP,
                                psub,
                                rngs[q].0,
                                rngs[q].1,
                            ));
                            assert(raws@[q] == psub[(#[trigger] rngs[q]).0 + 14]);
                        }
                        assert(out@.map_values(|m: SomeipMessage| m@) == msgs_views);
                    },
                    None => {},
                }
            }
            out
        } else if ip.protocol == 6 {
            let (sp, dp, toff) = match parse_tcp_at(frame, ip.payload_start, ip.payload_end) {
                Some(x) => x,
                None => {
                    self.bump_truncated();
                    return Vec::new();
                },
            };
            let key = crate::reassembly::ConnKey {
                src: ip.src,
                dst: ip.dst,
                src_port: sp,
                dst_port: dp,
            };
            let data = copy_range(frame, toff, ip.payload_end);
            let frames_out = self.tcp.push_bytes(key, &data);
            let mut out: Vec<SomeipMessage> = Vec::new();
            let n = frames_out.len();
            let mut i: usize = 0;
            while i < n
                invariant
                    i <= n,
                    n == frames_out@.len(),
                    crate::reassembly::tp_wf(crate::reassembly::tp_view(self.tp)),
                    crate::reassembly::tcp_wf(crate::reassembly::tcp_view(self.tcp)),
                    self.stats.frames == frames1,
                decreases n - i,
            {
                let (msgs, raws, _) = split_someip_messages(
                    ts,
                    SomeipTransportPortocol::TCP,
                    &frames_out[i],
                );
                proof {
                    assert(raws@.len() == msgs@.len()) by {
                        assert(msgs@.map_values(|m: SomeipMessage| m@).len()
                            == spec_payload_messages(
                            ts,
                            SomeipTransportPortocol::TCP,
                            frames_out@[i as int]@,
                        ).len());
                    }
                }
                let mut handled = self.process_messages(ip.src, ip.dst, sp, dp, msgs, &raws);
                out.append(&mut handled);
                i += 1;
            }
            out
        } else {
            Vec::new()
        }
    }

    fn bump_truncated(&mut self)
        ensures
            final(self).tp == old(self).tp,
            final(self).tcp == old(self).tcp,
            final(self).sd_log == old(self).sd_log,
            final(self).stats.frames == old(self).stats.frames,
    {
        if self.stats.truncated < 0xFFFF_FFFF_FFFF_FFFF {
            self.stats.truncated = self.stats.truncated + 1;
        }
    }

    fn bump_unknown_link(&mut self)
        ensures
            final(self).tp == old(self).tp,
            final(self).tcp == old(self).tcp,
            final(self).sd_log == old(self).sd_log,
            final(self).stats.frames == old(self).stats.frames,
    {
        if self.stats.unknown_link_protocol < 0xFFFF_FFFF_FFFF_FFFF {
            self.stats.unknown_link_protocol = self.stats.unknown_link_protocol + 1;
        }
    }

    /// Routes each split message: Service Discovery expands into one logged
    /// event per recognized entry (the entry's own service id, instance id,
    /// major version and time-to-live), mirrored in the message stream;
    /// segmented messages go to reassembly (a finished transfer emerges
    /// reassembled); plain messages pass through unchanged.
    fn process_messages(
        &mut self,
        src: IpAddress,
        dst: IpAddress,
        src_port: u16,
        dst_port: u16,
        msgs: Vec<SomeipMessage>,
        raws: &Vec<u8>,
    ) -> (r: Vec<SomeipMessage>)
        requires
            crate::reassembly::tp_wf(crate::reassembly::tp_view(old(self).tp)),
            raws@.len() == msgs@.len(),
        ensures
            crate::reassembly::tp_wf(crate::reassembly::tp_view(final(self).tp)),
            final(self).tcp == old(self).tcp,
            final(self).stats.frames == old(self).stats.frames,
            final(self).sd_log@ == old(self).sd_log@ + spec_messages_sd_events(
                msgs@.map_values(|m: SomeipMessage| m@),
            ),
            (forall|i: int|
                0 <= i < msgs@.len() ==> !((#[trigger] msgs@[i]).service_id == 0xFFFF
                    && msgs@[i].method_id == 0x8100) && !spec_is_tp(raws@[i]))
                ==> r@.map_values(|m: SomeipMessage| m@) == msgs@.map_values(
                |m: SomeipMessage| m@,
            ),
    {
        let ghost msgsv = msgs@;
        let ghost msv = msgs@.map_values(|m: SomeipMessage| m@);
        let ghost sd0 = self.sd_log@;
        let mut out: Vec<SomeipMessage> = Vec::new();
        let mut plain_only = true;
        let n = msgs.len();
        let mut msgs_in = msgs;
        let mut i: usize = 0;
        proof {
            assert(sd0 + spec_messages_sd_events_upto(msv, 0) =~= sd0);
        }
        while i < n
            invariant
                i <= n,
                n == msgs_in@.len(),
                msgs_in@ == msgsv,
                msv == msgsv.map_values(|m: SomeipMessage| m@),
                crate::reassembly::tp_wf(crate::reassembly::tp_view(self.tp)),
                self.tcp == old(self).tcp,
                self.stats.frames == old(self).stats.frames,
                self.sd_log@ == sd0 + spec_messages_sd_events_upto(msv, i as int),
                plain_only ==> out@.map_values(|m: SomeipMessage| m@) == msgsv.take(
                    i as int,
                ).map_values(|m: SomeipMessage| m@),
                !plain_only ==> exists|k: int|
                    0 <= k < i && (((#[trigger] msgsv[k]).service_id == 0xFFFF
                        && msgsv[k].method_id == 0x8100) || spec_is_tp(raws@[k])),
                raws@.len() == msgsv.len(),
            decreases n - i,
        {
            let m = &msgs_in[i];
            let ghost sd_at_i = self.sd_log@;
            if check_is_sd(m.service_id, m.method_id) {
                proof {
                    assert(msgsv[i as int].service_id == 0xFFFF && msgsv[i as int].method_id
                        == 0x8100);
                    assert(msv[i as int] == msgsv[i as int]@);
                }
                plain_only = false;
                match parse_sd_entries(&m.payload) {
                    None => {
                        self.bump_truncated();
                        proof {
                            assert(spec_message_sd_events(msv[i as int]) =~= Seq::<
                                SdEvent,
                            >::empty());
                            assert(self.sd_log@ =~= sd0 + spec_messages_sd_events_upto(
                                msv,
                                i as int + 1,
                            ));
                        }
                    },
                    Some(entries) => {
                        let ghost tsi = msv[i as int].timestamp;
                        proof {
                            assert(entries@ == spec_sd_entries(
                                msv[i as int].payload,
                                8,
                                8 + be_val(msv[i as int].payload.subrange(4, 8)) as int,
                            ));
                        }
                        let ec = entries.len();
                        let mut k: usize = 0;
                        while k < ec
                            invariant
                                k <= ec,
                                ec == entries@.len(),
                                i < n,
                                n == msgs_in@.len(),
                                msgs_in@ == msgsv,
                                tsi == msgs_in@[i as int].timestamp,
                                crate::reassembly::tp_wf(crate::reassembly::tp_view(self.tp)),
                                self.tcp == old(self).tcp,
                                self.stats.frames == old(self).stats.frames,
                                self.sd_log@ == sd_at_i + spec_sd_events_upto(
                                    tsi,
                                    entries@,
                                    k as int,
                                ),
                            decreases ec - k,
                        {
                            let ghost sd_at_k = self.sd_log@;
                            let e = entries[k];
                            match sd_event_kind(e.entry_type) {
                                None => {
                                    proof {
                                        assert(spec_sd_event_of(tsi, entries@[k as int])
                                            is None);
                                        assert(self.sd_log@ =~= sd_at_i + spec_sd_events_upto(
                                            tsi,
                                            entries@,
                                            k as int + 1,
                                        ));
                                    }
                                },
                                Some(kind) => {
                                    if self.stats.sd_events < 0xFFFF_FFFF_FFFF_FFFF {
                                        self.stats.sd_events = self.stats.sd_events + 1;
                                    }
                                    let ev = SdEvent {
                                        timestamp: msgs_in[i].timestamp,
                                        kind,
                                        service_id: e.service_id,
                                        instance_id: e.instance_id,
                                        major_version: e.major_version,
                                        ttl: e.ttl,
                                    };
                                    self.sd_log.push(ev);
                                    out.push(
                                        SomeipMessage {
                                            timestamp: msgs_in[i].timestamp,
                                            message_type: kind,
                                            service_id: e.service_id,
                                            method_id: msgs_in[i].method_id,
                                            client_id: msgs_in[i].client_id,
                                            session_id: msgs_in[i].session_id,
                                            return_code: msgs_in[i].return_code,
                                            transport_protocol: msgs_in[i].transport_protocol,
                                            payload: Vec::new(),
                                        },
                                    );
                                    proof {
                                        assert(spec_sd_event_of(tsi, entries@[k as int])
                                            == Some(ev));
                                        assert(self.sd_log@ =~= sd_at_k.push(ev));
                                        assert(self.sd_log@ =~= sd_at_i + spec_sd_events_upto(
                                            tsi,
                                            entries@,
                                            k as int + 1,
                                        ));
                                    }
                                },
                            }
                            k += 1;
                        }
                        proof {
                            assert(spec_message_sd_events(msv[i as int]) == spec_sd_events_of(
                                tsi,
                                entries@,
                            ));
                            assert(spec_sd_events_of(tsi, entries@) == spec_sd_events_upto(
                                tsi,
                                entries@,
                                ec as int,
                            ));
                            assert(self.sd_log@ =~= sd0 + spec_messages_sd_events_upto(
                                msv,
                                i as int + 1,
                            ));
                        }
                    },
                }
            } else if is_tp_message_type(raws[i]) {
                proof {
                    assert(spec_is_tp(raws@[i as int]));
                }
                plain_only = false;
                if m.payload.len() < 4 {
                    self.bump_truncated();
                } else {
                    let tp_field = crate::wire::read_be(&m.payload, 0, 4);
                    proof {
                        crate::wire::lemma_pow256_values();
                        assert(tp_field < 0x1_0000_0000 ==> (tp_field >> 4) < 0x1000_0000)
                            by (bit_vector);
                    }
                    let offset_units: usize = (tp_field >> 4) as usize;
                    let more = (tp_field & 1) == 1;
                    let key = crate::reassembly::FlowKey {
                        src,
                        dst,
                        src_port,
                        dst_port,
                        service_id: m.service_id,
                        method_id: m.method_id,
                        client_id: m.client_id,
                    };
                    let seg = copy_range(&m.payload, 4, m.payload.len());
                    let offset_wide: u64 = (offset_units as u64) * 16;
                    let offset_bytes: usize = if offset_wide <= usize::MAX as u64 {
                        offset_wide as usize
                    } else {
                        usize::MAX
                    };
                    match self.tp.push_segment(key, offset_bytes, more, &seg) {
                        None => {
                            if !more && self.stats.dropped_segments < 0xFFFF_FFFF_FFFF_FFFF {
                                self.stats.dropped_segments = self.stats.dropped_segments + 1;
                            }
                        },
                        Some(whole) => {
                            out.push(
                                SomeipMessage {
                                    timestamp: msgs_in[i].timestamp,
                                    message_type: classify_message_type(raws[i] & 0xDF),
                                    service_id: msgs_in[i].service_id,
                                    method_id: msgs_in[i].method_id,
                                    client_id: msgs_in[i].client_id,
                                    session_id: msgs_in[i].session_id,
                                    return_code: msgs_in[i].return_code,
                                    transport_protocol: msgs_in[i].transport_protocol,
                                    payload: whole,
                                },
                            );
                        },
                    }
                }
            } else {
                let ghost out0 = out@;
                let mcopy = clone_message(&msgs_in[i]);
                proof {
                    assert(mcopy@ == msgsv[i as int]@);
                }
                out.push(mcopy);
                proof {
                    if plain_only {
                        let lhs = out@.map_values(|m: SomeipMessage| m@);
                        let rhs = msgsv.take(i as int + 1).map_values(|m: SomeipMessage| m@);
                        assert(out0.map_values(|m: SomeipMessage| m@).len() == i as int);
                        assert(lhs.len() == rhs.len());
                        assert forall|q: int| 0 <= q < lhs.len() implies lhs[q] == rhs[q] by {
                            if q < i as int {
                                assert(out@[q] == out0[q]);
                                assert(out0.map_values(|m: SomeipMessage| m@)[q] == msgsv.take(
                                    i as int,
                                ).map_values(|m: SomeipMessage| m@)[q]);
                                assert(msgsv.take(i as int)[q] == msgsv[q]);
                                assert(msgsv.take(i as int + 1)[q] == msgsv[q]);
                            } else {
                                assert(out@[q] == mcopy);
                                assert(msgsv.take(i as int + 1)[q] == msgsv[i as int]);
                            }
                        }
                        assert(lhs =~= rhs);
                    }
                }
                if self.stats.messages < 0xFFFF_FFFF_FFFF_FFFF {
                    self.stats.messages = self.stats.messages + 1;
                }
            }
            proof {
                if !(msv[i as int].service_id == 0xFFFF && msv[i as int].method_id == 0x8100) {
                    assert(self.sd_log@ == sd_at_i);
                    assert(spec_message_sd_events(msv[i as int]) =~= Seq::<SdEvent>::empty());
                    assert(self.sd_log@ =~= sd0 + spec_messages_sd_events_upto(
                        msv,
                        i as int + 1,
                    ));
                }
            }
            i += 1;
        }
        proof {
            assert(spec_messages_sd_events_upto(msv, n as int) == spec_messages_sd_events(msv));
            if plain_only {
                assert(msgsv.take(n as int) =~= msgsv);
                assert(msgsv.take(n as int).map_values(|m: SomeipMessage| m@) == msgsv.map_values(
                    |m: SomeipMessage| m@,
                ));
            } else {
                let k = choose|k: int|
                    0 <= k < n && (((#[trigger] msgsv[k]).service_id == 0xFFFF
                        && msgsv[k].method_id == 0x8100) || spec_is_tp(raws@[k]));
                assert(!(!(msgsv[k].service_id == 0xFFFF && msgsv[k].method_id == 0x8100)
                    && !spec_is_tp(raws@[k])));
            }
        }
        out
    }
}


/// Copies one message.
pub fn clone_message(m: &SomeipMessage) -> (r: SomeipMessage)
    ensures
        r@ == m@,
{
    let p = copy_range(&m.payload, 0, m.payload.len());
    proof {
        assert(p@ =~= m.payload@);
    }
    SomeipMessage {
        timestamp: m.timestamp,
        message_type: m.message_type,
        service_id: m.service_id,
        method_id: m.method_id,
        client_id: m.client_id,
        session_id: m.session_id,
        return_code: m.return_code,
        transport_protocol: m.transport_protocol,
        payload: p,
    }
}

} // verus!
