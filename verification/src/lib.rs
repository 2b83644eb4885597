//! A signaling relay for peer-to-peer session establishment.
//!
//! Clients that cannot address each other directly post messages destined for
//! named peers and poll for messages addressed to themselves. The relay holds
//! no durable state: its only memory is a set of per-connection mailboxes with
//! capacity bounds and idle eviction.
//!
//! Discovery is resolved at send time: a message addressed to the reserved
//! connection id is rewritten to a currently registered connection of the
//! destination peer, so a mailbox for the reserved id is never created.

use vstd::prelude::*;

pub mod group;
pub mod mailbox;
pub mod manager;
pub mod proto;
pub mod registry;
pub mod relay;

pub use group::Group;
pub use group::PeerConn;
pub use manager::Manager;
pub use manager::ManagerConfig;
pub use manager::DEFAULT_MAILBOX_CAPACITY;
pub use manager::DEFAULT_MAX_GROUPS;
pub use manager::DEFAULT_MAX_PEERS_PER_GROUP;
pub use relay::Server;
pub use relay::ServerConfig;
pub use relay::KEEP_ALIVE_INTERVAL_MS;
pub use relay::SESSION_BATCH_TIMEOUT_MS;
pub use relay::SESSION_POLL_LATENCY_TOLERANCE_MS;

pub use mailbox::Mailbox;
pub use mailbox::SESSION_POLL_TIMEOUT_MS;

pub use proto::Message;
pub use proto::MessageHeader;
pub use proto::MessagePayload;
pub use proto::PayloadType;
pub use proto::PeerInfo;
pub use proto::IceServer;
pub use proto::PrepareResp;
pub use proto::RecvReq;
pub use proto::RecvResp;
pub use proto::RelayError;
pub use proto::SendReq;
pub use proto::SendResp;
pub use proto::keep_alive_ping;

verus! {

/// The reserved connection id: the discovery address. A client never owns it,
/// and no mailbox is ever created for it.
pub const RESERVED_CONN_ID_DISCOVERY: u32 = 0;

} // verus!
