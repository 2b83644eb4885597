//! The relay service: validation, discovery routing, and the delivery
//! contract of `send`, `recv` and `prepare` over the manager's mailbox
//! registry.
//!
//! Discovery is resolved at send time: a message addressed to the reserved
//! connection id is rewritten to a currently registered connection of the
//! destination peer before it is enqueued, so a mailbox for the reserved id
//! is never created and a receive stream drains its payload mailbox alone.
//! The keep-alive tick of a streaming receive is synthesized outside the
//! mailboxes and merged into the stream by the transport pump.

use vstd::prelude::*;

use crate::group::fresh_mailbox;
use crate::mailbox::MailboxV;
use crate::mailbox::lemma_send_exactly_once;
use crate::mailbox::push_drop_oldest;
use crate::manager::DEFAULT_MAILBOX_CAPACITY;
use crate::manager::DEFAULT_MAX_GROUPS;
use crate::manager::DEFAULT_MAX_PEERS_PER_GROUP;
use crate::manager::Manager;
use crate::manager::ManagerConfig;
use crate::proto::IceServer;
use crate::proto::Message;
use crate::proto::MessageHeader;
use crate::proto::MessageHeaderV;
use crate::proto::MessageV;
use crate::proto::PeerInfo;
use crate::proto::PeerInfoV;
use crate::proto::PrepareResp;
use crate::proto::RecvReq;
use crate::proto::RecvResp;
use crate::proto::RelayError;
use crate::proto::SendReq;
use crate::proto::SendResp;
use crate::proto::has_header;
use crate::registry::registry_insert_post;

verus! {

/// Milliseconds between keep-alive pings on a streaming receive.
pub const KEEP_ALIVE_INTERVAL_MS: u64 = 45_000;

/// Ceiling of one long-poll window: the poll timeout less the latency
/// tolerance, so the response returns before the mailbox turns idle-eligible.
pub const SESSION_POLL_LATENCY_TOLERANCE_MS: u64 = 5_000;

/// Milliseconds a long poll lingers after a drain to coalesce bursts.
pub const SESSION_BATCH_TIMEOUT_MS: u64 = 5;

/// Sizing of the relay: the cap on concurrently live groups and the
/// per-mailbox message capacity.
#[derive(Clone, Copy, Debug, PartialEq, Eq, Structural)]
pub struct ServerConfig {
    pub max_capacity: u64,
    pub mailbox_capacity: u64,
}

/// The relay server: a manager of groups of mailboxes behind the `send`,
/// `recv` and `prepare` operations.
pub struct Server {
    pub manager: Manager,
}

/// A `send` request is valid when it carries a message, the message a
/// header, and the header a destination.
pub open spec fn send_req_valid(req: SendReq) -> bool {
    match req.msg {
        Some(m) => match m.header {
            Some(h) => h.dst is Some,
            None => false,
        },
        None => false,
    }
}

/// The destination identity of a valid `send` request.
pub open spec fn spec_send_dst(req: SendReq) -> PeerInfoV {
    match req.msg {
        Some(m) => match m.header {
            Some(h) => match h.dst {
                Some(d) => d@,
                None => arbitrary(),
            },
            None => arbitrary(),
        },
        None => arbitrary(),
    }
}

/// The message of a `send` request.
pub open spec fn spec_send_msg(req: SendReq) -> MessageV {
    match req.msg {
        Some(m) => m@,
        None => arbitrary(),
    }
}

/// The message with its destination connection id rewritten, as discovery
/// routing does before enqueueing.
pub open spec fn rewrite_dst_conn(m: MessageV, c: u32) -> MessageV {
    match m.header {
        Some(h) => MessageV {
            header: Some(
                MessageHeaderV {
                    dst: match h.dst {
                        Some(d) => Some(PeerInfoV { conn_id: c, ..d }),
                        None => None,
                    },
                    ..h
                },
            ),
            ..m
        },
        None => m,
    }
}

/// What a successful `send` enqueues: the request's message, with the
/// destination connection id rewritten when it addressed the discovery id.
pub open spec fn delivered_msg(req: SendReq, c: u32) -> MessageV {
    if spec_send_dst(req).conn_id == 0 {
        rewrite_dst_conn(spec_send_msg(req), c)
    } else {
        spec_send_msg(req)
    }
}

/// The whole effect of a successful `send` that delivered to connection `c`
/// of the destination peer: `c` is the destination's own connection id, or,
/// for a discovery send, some connection registered before the call; the
/// delivered mailbox gains the (possibly rewritten) message at the back,
/// dropping its oldest entry when full, holds a pending wake, and is freshly
/// touched; and at both registry levels everything else is untouched, except
/// that creating a mailbox or group in a full registry evicted one
/// least-recently-used entry.
pub open spec fn spec_send_delivery(
    pre: Map<Seq<char>, Map<(Seq<char>, u32), MailboxV>>,
    post: Map<Seq<char>, Map<(Seq<char>, u32), MailboxV>>,
    req: SendReq,
    c: u32,
    cap: nat,
    maxp: nat,
    maxg: nat,
    now: u64,
) -> bool {
    let dst = spec_send_dst(req);
    let g = dst.group_id;
    let k = (dst.peer_id, c);
    &&& c != 0
    &&& (dst.conn_id != 0 ==> c == dst.conn_id)
    &&& (dst.conn_id == 0 ==> Manager::group_of(pre, g).contains_key(k))
    &&& post.contains_key(g)
    &&& Manager::group_of(post, g).contains_key(k)
    &&& Manager::group_of(post, g)[k].msgs == push_drop_oldest(
        Manager::msgs_of(pre, g, k),
        delivered_msg(req, c),
        cap,
    )
    &&& Manager::group_of(post, g)[k].wake
    &&& Manager::group_of(post, g)[k].touched == now
    &&& registry_insert_post(
        Manager::group_of(pre, g),
        Manager::group_of(post, g),
        k,
        Manager::group_of(post, g)[k],
        maxp,
    )
    &&& registry_insert_post(pre, post, g, post[g], maxg)
}

/// A `recv` request is valid when it carries a source identity that does not
/// use the reserved discovery connection id.
pub open spec fn recv_req_valid(req: RecvReq) -> bool {
    match req.src {
        Some(s) => s.conn_id != 0,
        None => false,
    }
}

/// The source identity of a valid `recv` request.
pub open spec fn spec_recv_src(req: RecvReq) -> PeerInfoV {
    match req.src {
        Some(s) => s@,
        None => arbitrary(),
    }
}

impl Server {
    /// A well-formed server is one whose manager is well formed.
    pub open spec fn wf(&self) -> bool {
        self.manager.wf()
    }

    /// A fresh relay with the given sizing, the default per-group peer cap,
    /// and no state. A capacity that does not fit the machine is clamped.
    pub fn new(cfg: ServerConfig) -> (r: Server)
        ensures
            r.wf(),
            r.manager@ == Map::<Seq<char>, Map<(Seq<char>, u32), MailboxV>>::empty(),
            r.manager.spec_max_peers_per_group() == DEFAULT_MAX_PEERS_PER_GROUP,
            1 <= cfg.max_capacity <= usize::MAX ==> r.manager.spec_max_groups()
                == cfg.max_capacity,
            1 <= cfg.mailbox_capacity <= usize::MAX ==> r.manager.spec_mailbox_capacity()
                == cfg.mailbox_capacity,
    {
        let mg: usize = if cfg.max_capacity > usize::MAX as u64 {
            usize::MAX
        } else {
            cfg.max_capacity as usize
        };
        let cap: usize = if cfg.mailbox_capacity > usize::MAX as u64 {
            usize::MAX
        } else {
            cfg.mailbox_capacity as usize
        };
        let manager = Manager::with_mailbox_capacity(
            ManagerConfig { max_groups: mg, max_peers_per_group: DEFAULT_MAX_PEERS_PER_GROUP },
            cap,
        );
        Server { manager }
    }

    /// The fixed ICE server list: a single public STUN entry, meant to be
    /// replaced by an operator's own infrastructure. Reads and writes no
    /// state.
    pub fn prepare(&self) -> (r: PrepareResp)
        ensures
            r.ice_servers@.len() == 1,
            r.ice_servers@[0].urls@.len() == 1,
            r.ice_servers@[0].urls@[0]@ == "stun:stun.l.google.com:19302"@,
            r.ice_servers@[0].username is None,
            r.ice_servers@[0].credential is None,
    {
        let url: String = "stun:stun.l.google.com:19302".to_owned();
        let server = IceServer { urls: vec![url], username: None, credential: None };
        PrepareResp { ice_servers: vec![server] }
    }

    /// Route and enqueue one message. A request without message, header or
    /// destination is rejected as invalid, with nothing changed. A
    /// destination with the reserved connection id is resolved through the
    /// group's registered connections: with none, the send fails as
    /// not-found, with nothing changed; otherwise the message is delivered,
    /// with its destination rewritten, to some connection that was
    /// registered. Any other destination is delivered as it stands, creating
    /// group and mailbox as needed. Enqueueing never blocks: a full mailbox
    /// drops its oldest message.
    pub fn send(&mut self, req: SendReq, now: u64) -> (r: Result<SendResp, RelayError>)
        requires
            old(self).wf(),
        ensures
            final(self).wf(),
            final(self).manager.spec_mailbox_capacity() == old(self).manager.spec_mailbox_capacity(),
            final(self).manager.spec_max_groups() == old(self).manager.spec_max_groups(),
            final(self).manager.spec_max_peers_per_group() == old(self).manager.spec_max_peers_per_group(),
            r == Err::<SendResp, RelayError>(RelayError::InvalidArgument) <==> !send_req_valid(
                req,
            ),
            r == Err::<SendResp, RelayError>(RelayError::NotFound) <==> send_req_valid(req)
                && spec_send_dst(req).conn_id == 0 && !Manager::peer_registered(
                old(self).manager@,
                spec_send_dst(req).group_id,
                spec_send_dst(req).peer_id,
            ),
            r is Ok <==> send_req_valid(req) && (spec_send_dst(req).conn_id != 0
                || Manager::peer_registered(
                old(self).manager@,
                spec_send_dst(req).group_id,
                spec_send_dst(req).peer_id,
            )),
            r is Err ==> final(self).manager@ == old(self).manager@,
            r is Ok ==> exists|c: u32|
                #[trigger] spec_send_delivery(
                    old(self).manager@,
                    final(self).manager@,
                    req,
                    c,
                    old(self).manager.spec_mailbox_capacity(),
                    old(self).manager.spec_max_peers_per_group(),
                    old(self).manager.spec_max_groups(),
                    now,
                ),
    {
        let msg = match req.msg {
            Some(m) => m,
            None => {
                return Err(RelayError::InvalidArgument);
            },
        };
        let Message { header, payload } = msg;
        let header = match header {
            Some(h) => h,
            None => {
                return Err(RelayError::InvalidArgument);
            },
        };
        let MessageHeader { src, dst, seqnum, reliable } = header;
        let dst = match dst {
            Some(d) => d,
            None => {
                return Err(RelayError::InvalidArgument);
            },
        };
        let PeerInfo { group_id, peer_id, conn_id } = dst;
        let route_c: u32 = if conn_id == crate::RESERVED_CONN_ID_DISCOVERY {
            match self.manager.select_one(&group_id, &peer_id) {
                Some(c) => c,
                None => {
                    return Err(RelayError::NotFound);
                },
            }
        } else {
            conn_id
        };
        let target = PeerInfo {
            group_id: group_id.clone(),
            peer_id: peer_id.clone(),
            conn_id: route_c,
        };
        let delivered = Message {
            header: Some(
                MessageHeader {
                    src,
                    dst: Some(PeerInfo { group_id, peer_id, conn_id: route_c }),
                    seqnum,
                    reliable,
                },
            ),
            payload,
        };
        proof {
            assert(delivered@ == delivered_msg(req, route_c));
        }
        self.manager.send_to(&target, delivered, now);
        proof {
            assert(spec_send_delivery(
                old(self).manager@,
                self.manager@,
                req,
                route_c,
                old(self).manager.spec_mailbox_capacity(),
                old(self).manager.spec_max_peers_per_group(),
                old(self).manager.spec_max_groups(),
                now,
            ));
        }
        Ok(SendResp {})
    }

    /// Drain one long-poll batch for a validated source: everything pending
    /// in its payload mailbox, oldest first, leaving the mailbox empty and
    /// freshly touched. Every returned message carries a header; keep-alive
    /// pings never come out of a mailbox.
    pub fn recv_batch(&mut self, src: &PeerInfo, now: u64) -> (r: Vec<Message>)
        requires
            old(self).wf(),
            src.conn_id != 0,
        ensures
            final(self).wf(),
            final(self).manager.spec_mailbox_capacity() == old(self).manager.spec_mailbox_capacity(),
            final(self).manager.spec_max_groups() == old(self).manager.spec_max_groups(),
            final(self).manager.spec_max_peers_per_group() == old(self).manager.spec_max_peers_per_group(),
            r@.map_values(|m: Message| m@) == Manager::msgs_of(
                old(self).manager@,
                src@.group_id,
                (src@.peer_id, src@.conn_id),
            ),
            forall|i: int| 0 <= i < r@.len() ==> has_header(#[trigger] r@[i]@),
            Manager::group_of(final(self).manager@, src@.group_id).contains_key(
                (src@.peer_id, src@.conn_id),
            ),
            Manager::group_of(final(self).manager@, src@.group_id)[(src@.peer_id, src@.conn_id)]
                == fresh_mailbox(now),
            registry_insert_post(
                Manager::group_of(old(self).manager@, src@.group_id),
                Manager::group_of(final(self).manager@, src@.group_id),
                (src@.peer_id, src@.conn_id),
                fresh_mailbox(now),
                old(self).manager.spec_max_peers_per_group(),
            ),
            registry_insert_post(
                old(self).manager@,
                final(self).manager@,
                src@.group_id,
                final(self).manager@[src@.group_id],
                old(self).manager.spec_max_groups(),
            ),
    {
        self.manager.drain(src, now)
    }

    /// One long-poll `recv`. A request without source, or with the reserved
    /// connection id as source, is rejected as invalid, with nothing
    /// changed; otherwise the response carries the batch drained from the
    /// source's payload mailbox, in send order.
    pub fn recv(&mut self, req: RecvReq, now: u64) -> (r: Result<RecvResp, RelayError>)
        requires
            old(self).wf(),
        ensures
            final(self).wf(),
            final(self).manager.spec_mailbox_capacity() == old(self).manager.spec_mailbox_capacity(),
            final(self).manager.spec_max_groups() == old(self).manager.spec_max_groups(),
            final(self).manager.spec_max_peers_per_group() == old(self).manager.spec_max_peers_per_group(),
            r is Err <==> !recv_req_valid(req),
            r is Err ==> r == Err::<RecvResp, RelayError>(RelayError::InvalidArgument) && final(self).manager@ == old(self).manager@,
            r is Ok ==> (r matches Ok(resp) && {
                let src = spec_recv_src(req);
                let k = (src.peer_id, src.conn_id);
                &&& resp.msgs@.map_values(|m: Message| m@) == Manager::msgs_of(
                    old(self).manager@,
                    src.group_id,
                    k,
                )
                &&& (forall|i: int| 0 <= i < resp.msgs@.len() ==> has_header(#[trigger] resp.msgs@[i]@))
                &&& Manager::group_of(final(self).manager@, src.group_id).contains_key(k)
                &&& Manager::group_of(final(self).manager@, src.group_id)[k] == fresh_mailbox(now)
                &&& registry_insert_post(
                    Manager::group_of(old(self).manager@, src.group_id),
                    Manager::group_of(final(self).manager@, src.group_id),
                    k,
                    fresh_mailbox(now),
                    old(self).manager.spec_max_peers_per_group(),
                )
                &&& registry_insert_post(
                    old(self).manager@,
                    final(self).manager@,
                    src.group_id,
                    final(self).manager@[src.group_id],
                    old(self).manager.spec_max_groups(),
                )
            }),
    {
        let src = match req.src {
            Some(s) => s,
            None => {
                return Err(RelayError::InvalidArgument);
            },
        };
        if src.conn_id == crate::RESERVED_CONN_ID_DISCOVERY {
            return Err(RelayError::InvalidArgument);
        }
        let msgs = self.recv_batch(&src, now);
        Ok(RecvResp { msgs })
    }

    /// Open the server side of a streaming receive: validate the source and
    /// register its payload mailbox, so the peer becomes discoverable and
    /// subsequent sends land in it. The transport pump then drains the
    /// mailbox and merges keep-alive pings; on stream close it removes the
    /// connection through the manager.
    pub fn recv_stream(&mut self, src: &PeerInfo, now: u64) -> (r: Result<(), RelayError>)
        requires
            old(self).wf(),
        ensures
            final(self).wf(),
            final(self).manager.spec_mailbox_capacity() == old(self).manager.spec_mailbox_capacity(),
            final(self).manager.spec_max_groups() == old(self).manager.spec_max_groups(),
            final(self).manager.spec_max_peers_per_group() == old(self).manager.spec_max_peers_per_group(),
            r is Err <==> src.conn_id == 0,
            r is Err ==> r == Err::<(), RelayError>(RelayError::InvalidArgument) && final(self).manager@ == old(self).manager@,
            r is Ok ==> {
                let k = (src@.peer_id, src@.conn_id);
                &&& Manager::group_of(final(self).manager@, src@.group_id).contains_key(k)
                &&& Manager::group_of(final(self).manager@, src@.group_id)[k].msgs
                    == Manager::msgs_of(old(self).manager@, src@.group_id, k)
                &&& registry_insert_post(
                    Manager::group_of(old(self).manager@, src@.group_id),
                    Manager::group_of(final(self).manager@, src@.group_id),
                    k,
                    Manager::group_of(final(self).manager@, src@.group_id)[k],
                    old(self).manager.spec_max_peers_per_group(),
                )
                &&& registry_insert_post(
                    old(self).manager@,
                    final(self).manager@,
                    src@.group_id,
                    final(self).manager@[src@.group_id],
                    old(self).manager.spec_max_groups(),
                )
            },
    {
        if src.conn_id == crate::RESERVED_CONN_ID_DISCOVERY {
            return Err(RelayError::InvalidArgument);
        }
        self.manager.register(src, now);
        Ok(())
    }
}

impl Default for Server {
    /// The stock relay: the default group cap, peer cap and mailbox
    /// capacity, and no state.
    fn default() -> (r: Server)
        ensures
            r.wf(),
            r.manager@ == Map::<Seq<char>, Map<(Seq<char>, u32), MailboxV>>::empty(),
            r.manager.spec_max_groups() == DEFAULT_MAX_GROUPS,
            r.manager.spec_max_peers_per_group() == DEFAULT_MAX_PEERS_PER_GROUP,
            r.manager.spec_mailbox_capacity() == DEFAULT_MAILBOX_CAPACITY,
    {
        let manager = Manager::new(
            ManagerConfig {
                max_groups: DEFAULT_MAX_GROUPS,
                max_peers_per_group: DEFAULT_MAX_PEERS_PER_GROUP,
            },
        );
        Server { manager }
    }
}

/// Exactly-once delivery: a send that found room in the mailbox, followed by
/// a receive of that mailbox with no eviction in between, hands the
/// delivered message over exactly one more time than the mailbox already
/// held it — and a mailbox that never saw it twice holds it once.
pub proof fn lemma_send_recv_exactly_once(
    pre: Map<Seq<char>, Map<(Seq<char>, u32), MailboxV>>,
    post: Map<Seq<char>, Map<(Seq<char>, u32), MailboxV>>,
    req: SendReq,
    c: u32,
    cap: nat,
    maxp: nat,
    maxg: nat,
    now: u64,
)
    requires
        spec_send_delivery(pre, post, req, c, cap, maxp, maxg, now),
        Manager::msgs_of(pre, spec_send_dst(req).group_id, (spec_send_dst(req).peer_id, c)).len()
            < cap,
    ensures
        Manager::msgs_of(post, spec_send_dst(req).group_id, (spec_send_dst(req).peer_id, c)).to_multiset().count(
            delivered_msg(req, c),
        ) == Manager::msgs_of(
            pre,
            spec_send_dst(req).group_id,
            (spec_send_dst(req).peer_id, c),
        ).to_multiset().count(delivered_msg(req, c)) + 1,
{
    let g = spec_send_dst(req).group_id;
    let k = (spec_send_dst(req).peer_id, c);
    lemma_send_exactly_once(Manager::msgs_of(pre, g, k), delivered_msg(req, c), cap);
}

/// Delivery order: two sends that completed one after the other into the
/// same mailbox, both finding room, stand in the mailbox — and so in the
/// batch a single following receive drains — in exactly that order, after
/// whatever the mailbox already held.
pub proof fn lemma_sends_drain_in_order(
    pre: Map<Seq<char>, Map<(Seq<char>, u32), MailboxV>>,
    mid: Map<Seq<char>, Map<(Seq<char>, u32), MailboxV>>,
    post: Map<Seq<char>, Map<(Seq<char>, u32), MailboxV>>,
    req1: SendReq,
    req2: SendReq,
    c: u32,
    cap: nat,
    maxp: nat,
    maxg: nat,
    now1: u64,
    now2: u64,
)
    requires
        spec_send_delivery(pre, mid, req1, c, cap, maxp, maxg, now1),
        spec_send_delivery(mid, post, req2, c, cap, maxp, maxg, now2),
        spec_send_dst(req1).group_id == spec_send_dst(req2).group_id,
        spec_send_dst(req1).peer_id == spec_send_dst(req2).peer_id,
        Manager::msgs_of(pre, spec_send_dst(req1).group_id, (spec_send_dst(req1).peer_id, c)).len()
            + 2 <= cap,
    ensures
        Manager::msgs_of(post, spec_send_dst(req1).group_id, (spec_send_dst(req1).peer_id, c))
            == Manager::msgs_of(
            pre,
            spec_send_dst(req1).group_id,
            (spec_send_dst(req1).peer_id, c),
        ) + seq![delivered_msg(req1, c), delivered_msg(req2, c)],
{
    let g = spec_send_dst(req1).group_id;
    let k = (spec_send_dst(req1).peer_id, c);
    let q0 = Manager::msgs_of(pre, g, k);
    assert(Manager::msgs_of(mid, g, k) == q0.push(delivered_msg(req1, c)));
    assert(Manager::msgs_of(post, g, k) == q0.push(delivered_msg(req1, c)).push(
        delivered_msg(req2, c),
    ));
    assert(q0.push(delivered_msg(req1, c)).push(delivered_msg(req2, c)) =~= q0 + seq![
        delivered_msg(req1, c),
        delivered_msg(req2, c),
    ]);
}

/// Idempotent removal: dropping the same connection twice leaves the
/// registry exactly as dropping it once does.
pub proof fn lemma_remove_idempotent(
    pre: Map<Seq<char>, Map<(Seq<char>, u32), MailboxV>>,
    g: Seq<char>,
    k: (Seq<char>, u32),
)
    ensures
        Manager::remove_post(Manager::remove_post(pre, g, k), g, k) == Manager::remove_post(
            pre,
            g,
            k,
        ),
{
    let once = Manager::remove_post(pre, g, k);
    if pre.contains_key(g) {
        let g2 = pre[g].remove(k);
        if g2.dom().len() == 0 {
            assert(!once.contains_key(g));
        } else {
            assert(once[g].remove(k) =~= g2);
            assert(Manager::remove_post(once, g, k) =~= once);
        }
    }
}

/// A closed stream is gone: after its cleanup removed the connection, the
/// group no longer lists the `(peer_id, conn_id)` pair.
pub proof fn lemma_removed_not_listed(
    pre: Map<Seq<char>, Map<(Seq<char>, u32), MailboxV>>,
    g: Seq<char>,
    k: (Seq<char>, u32),
)
    ensures
        !Manager::group_of(Manager::remove_post(pre, g, k), g).contains_key(k),
{
}

} // verus!
