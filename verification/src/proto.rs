//! Wire-level data types of the relay: peer identities, message envelopes,
//! request and response shapes, and the relay's error kinds.

use vstd::prelude::*;

verus! {

/// Identity of one connection of one peer: `(group_id, peer_id, conn_id)`.
/// `conn_id == 0` is reserved as the discovery address.
#[derive(Clone, Debug, PartialEq, Eq, Hash)]
pub struct PeerInfo {
    pub group_id: String,
    pub peer_id: String,
    pub conn_id: u32,
}

/// Mathematical image of a [`PeerInfo`].
pub ghost struct PeerInfoV {
    pub group_id: Seq<char>,
    pub peer_id: Seq<char>,
    pub conn_id: u32,
}

impl View for PeerInfo {
    type V = PeerInfoV;

    open spec fn view(&self) -> PeerInfoV {
        PeerInfoV { group_id: self.group_id@, peer_id: self.peer_id@, conn_id: self.conn_id }
    }
}

/// Routing header of a client-originated message. `seqnum` is opaque to the
/// relay: it never orders deliveries by it.
#[derive(Clone, Debug, PartialEq, Eq, Hash)]
pub struct MessageHeader {
    pub src: Option<PeerInfo>,
    pub dst: Option<PeerInfo>,
    pub seqnum: u32,
    pub reliable: bool,
}

/// Mathematical image of a [`MessageHeader`].
pub ghost struct MessageHeaderV {
    pub src: Option<PeerInfoV>,
    pub dst: Option<PeerInfoV>,
    pub seqnum: u32,
    pub reliable: bool,
}

impl View for MessageHeader {
    type V = MessageHeaderV;

    open spec fn view(&self) -> MessageHeaderV {
        MessageHeaderV {
            src: match self.src {
                Some(p) => Some(p@),
                None => None,
            },
            dst: match self.dst {
                Some(p) => Some(p@),
                None => None,
            },
            seqnum: self.seqnum,
            reliable: self.reliable,
        }
    }
}

/// The tagged payload variant. The relay only ever produces, and never
/// consumes, the `Ping` tag; all other content is opaque bytes.
#[derive(Clone, Debug, PartialEq, Eq, Hash)]
pub enum PayloadType {
    Ping,
    Data(Vec<u8>),
}

/// Mathematical image of a [`PayloadType`].
pub ghost enum PayloadTypeV {
    Ping,
    Data(Seq<u8>),
}

impl View for PayloadType {
    type V = PayloadTypeV;

    open spec fn view(&self) -> PayloadTypeV {
        match self {
            PayloadType::Ping => PayloadTypeV::Ping,
            PayloadType::Data(d) => PayloadTypeV::Data(d@),
        }
    }
}

/// Payload envelope; the tag may be absent.
#[derive(Clone, Debug, PartialEq, Eq, Hash)]
pub struct MessagePayload {
    pub payload_type: Option<PayloadType>,
}

/// Mathematical image of a [`MessagePayload`].
pub ghost struct MessagePayloadV {
    pub payload_type: Option<PayloadTypeV>,
}

impl View for MessagePayload {
    type V = MessagePayloadV;

    open spec fn view(&self) -> MessagePayloadV {
        MessagePayloadV {
            payload_type: match self.payload_type {
                Some(p) => Some(p@),
                None => None,
            },
        }
    }
}

/// A relayed message. The header is absent only on relay-originated
/// keep-alives; client-originated messages carry one.
#[derive(Clone, Debug, PartialEq, Eq, Hash)]
pub struct Message {
    pub header: Option<MessageHeader>,
    pub payload: MessagePayload,
}

/// Mathematical image of a [`Message`].
pub ghost struct MessageV {
    pub header: Option<MessageHeaderV>,
    pub payload: MessagePayloadV,
}

impl View for Message {
    type V = MessageV;

    open spec fn view(&self) -> MessageV {
        MessageV {
            header: match self.header {
                Some(h) => Some(h@),
                None => None,
            },
            payload: self.payload@,
        }
    }
}

/// One ICE server entry of a `prepare` response.
#[derive(Clone, Debug, PartialEq, Eq)]
pub struct IceServer {
    pub urls: Vec<String>,
    pub username: Option<String>,
    pub credential: Option<String>,
}

/// Response of `prepare`: the ICE servers a client should try.
#[derive(Clone, Debug, PartialEq, Eq)]
pub struct PrepareResp {
    pub ice_servers: Vec<IceServer>,
}

/// Request of `send`; the message is required.
#[derive(Clone, Debug, PartialEq, Eq)]
pub struct SendReq {
    pub msg: Option<Message>,
}

/// Response of a successful `send`.
#[derive(Clone, Debug, PartialEq, Eq)]
pub struct SendResp {}

/// Request of `recv`; the source identity is required.
#[derive(Clone, Debug, PartialEq, Eq)]
pub struct RecvReq {
    pub src: Option<PeerInfo>,
}

/// Response of one `recv` poll: the batch drained from the caller's mailbox.
#[derive(Clone, Debug, PartialEq, Eq)]
pub struct RecvResp {
    pub msgs: Vec<Message>,
}

/// The error kinds the relay surfaces on its RPC edge.
#[derive(Clone, Copy, Debug, PartialEq, Eq)]
pub enum RelayError {
    /// A required field is missing, or a reserved connection id was used.
    InvalidArgument,
    /// A discovery send found no registered connection for the peer.
    NotFound,
}

/// Whether a message carries a routing header; keep-alives do not.
pub open spec fn has_header(m: MessageV) -> bool {
    m.header is Some
}

/// The relay's keep-alive tick: a header-less message whose payload is the
/// `Ping` tag. Clients tell it apart from relayed traffic by the absent
/// header.
pub fn keep_alive_ping() -> (r: Message)
    ensures
        r@.header is None,
        r@.payload.payload_type == Some(PayloadTypeV::Ping),
        !has_header(r@),
{
    Message {
        header: None,
        payload: MessagePayload { payload_type: Some(PayloadType::Ping) },
    }
}

} // verus!
