//! Core SOME/IP identifiers, message classification and the demultiplexer's
//! output record.

use vstd::prelude::*;

verus! {

pub type SomeipServiceId = u16;

pub type SomeipMethodId = u16;

pub type SomeipClientId = u16;

pub type SomeipSessionId = u16;

pub type SomeipInstanceId = u16;

pub type SomeipMajorVersion = u16;

pub type SomeipMinorVersion = u16;

pub type SomeipReturnCode = u8;

pub type PacketIndex = isize;

pub type Port = u16;

pub type ServerPort = Port;

/// Transport that carried a SOME/IP message.
#[derive(Clone, Copy, PartialEq, Eq, Structural, Debug)]
pub enum SomeipTransportPortocol {
    UNDEFINED,
    TCP,
    UDP,
}

/// Classification of one demultiplexed SOME/IP message, covering both plain
/// messages and the Service Discovery sub-protocol's entry kinds.
#[derive(Clone, Copy, PartialEq, Eq, Structural, Debug)]
pub enum SomeipMessageType {
    Request,
    RequestWithoutResponse,
    Response,
    ResponseWithError,
    Notification,
    ServiceOffer,
    ServiceSubscribe,
    ServiceSubscribeAck,
}

/// An IP endpoint address, held as plain integers so that flow keys and
/// deployment roles can be compared and reasoned about structurally.
#[derive(Clone, Copy, PartialEq, Eq, Structural, Debug)]
pub enum IpAddress {
    V4(u32),
    V6(u64, u64),
}

/// One fully demultiplexed SOME/IP message: classification plus the header
/// fields and payload bytes a decoder needs. Timestamps are microseconds
/// since the capture's epoch.
pub struct SomeipMessage {
    pub timestamp: u64,
    pub message_type: SomeipMessageType,
    pub service_id: SomeipServiceId,
    pub method_id: SomeipMethodId,
    pub client_id: SomeipClientId,
    pub session_id: SomeipSessionId,
    pub return_code: SomeipReturnCode,
    pub transport_protocol: SomeipTransportPortocol,
    pub payload: Vec<u8>,
}

/// Mathematical image of a `SomeipMessage`: the payload as a byte sequence.
pub ghost struct SomeipMessageView {
    pub timestamp: u64,
    pub message_type: SomeipMessageType,
    pub service_id: SomeipServiceId,
    pub method_id: SomeipMethodId,
    pub client_id: SomeipClientId,
    pub session_id: SomeipSessionId,
    pub return_code: SomeipReturnCode,
    pub transport_protocol: SomeipTransportPortocol,
    pub payload: Seq<u8>,
}

impl View for SomeipMessage {
    type V = SomeipMessageView;

    open spec fn view(&self) -> SomeipMessageView {
        SomeipMessageView {
            timestamp: self.timestamp,
            message_type: self.message_type,
            service_id: self.service_id,
            method_id: self.method_id,
            client_id: self.client_id,
            session_id: self.session_id,
            return_code: self.return_code,
            transport_protocol: self.transport_protocol,
            payload: self.payload@,
        }
    }
}

/// Marker for a frame source feeding the demultiplexer.
pub struct Source;

} // verus!
