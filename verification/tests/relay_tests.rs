use pulsebeam_relay::Message;
use pulsebeam_relay::MessageHeader;
use pulsebeam_relay::MessagePayload;
use pulsebeam_relay::PayloadType;
use pulsebeam_relay::PeerInfo;
use pulsebeam_relay::RecvReq;
use pulsebeam_relay::RelayError;
use pulsebeam_relay::SendReq;
use pulsebeam_relay::Server;
use pulsebeam_relay::ServerConfig;
use pulsebeam_relay::keep_alive_ping;

fn dummy_msg(src: PeerInfo, dst: PeerInfo, seqnum: u32) -> Message {
    Message {
        header: Some(MessageHeader {
            src: Some(src),
            dst: Some(dst),
            seqnum,
            reliable: true,
        }),
        payload: MessagePayload { payload_type: None },
    }
}

fn assert_msgs(received: &[Message], sent: &[Message]) {
    assert_eq!(received.len(), sent.len());
    let mut received = received.to_vec();
    received.sort_by_key(|m| m.header.as_ref().unwrap().seqnum);
    let mut sent = sent.to_vec();
    sent.sort_by_key(|m| m.header.as_ref().unwrap().seqnum);
    for (a, b) in received.iter().zip(sent.iter()) {
        assert_eq!(a, b);
    }
}

fn setup() -> (Server, PeerInfo, PeerInfo) {
    let s = Server::new(ServerConfig {
        max_capacity: 10_000,
        mailbox_capacity: 32,
    });
    let peer1 = PeerInfo {
        group_id: String::from("default"),
        peer_id: String::from("peer1"),
        conn_id: 32,
    };
    let peer2 = PeerInfo {
        group_id: peer1.group_id.clone(),
        peer_id: String::from("peer2"),
        conn_id: 64,
    };
    (s, peer1, peer2)
}

#[test]
fn recv_normal() {
    let (mut s, peer1, peer2) = setup();
    let msgs = vec![dummy_msg(peer1.clone(), peer2.clone(), 0)];
    s.send(
        SendReq {
            msg: Some(msgs[0].clone()),
        },
        1,
    )
    .unwrap();

    let resp = s
        .recv(
            RecvReq {
                src: Some(peer2.clone()),
            },
            2,
        )
        .unwrap();

    assert_msgs(&resp.msgs, &msgs);
}

#[test]
fn lib_recv_first_then_send() {
    let (mut s, peer1, peer2) = setup();
    let msgs = vec![dummy_msg(peer1.clone(), peer2.clone(), 0)];

    // the consumer registers its stream before anything was sent
    s.recv_stream(&peer2, 1).unwrap();
    s.send(
        SendReq {
            msg: Some(msgs[0].clone()),
        },
        2,
    )
    .unwrap();

    let resp = s
        .recv(
            RecvReq {
                src: Some(peer2.clone()),
            },
            3,
        )
        .unwrap();
    assert_msgs(&resp.msgs, &msgs);
}

#[test]
fn recv_after_ttl() {
    let (mut s, peer1, peer2) = setup();
    let sent = vec![dummy_msg(peer1.clone(), peer2.clone(), 0)];

    s.manager.invalidate_all();
    let received = s.recv_batch(&peer2, 1);
    assert_eq!(received.len(), 0);

    s.send(
        SendReq {
            msg: Some(sent[0].clone()),
        },
        2,
    )
    .unwrap();
    let received = s.recv_batch(&peer2, 3);
    assert_msgs(&received, &sent);
}

#[test]
fn recv_normal_single() {
    let (mut s, peer1, peer2) = setup();
    let msgs = vec![dummy_msg(peer1.clone(), peer2.clone(), 0)];
    s.recv_stream(&peer2, 0).unwrap();
    s.send(
        SendReq {
            msg: Some(msgs[0].clone()),
        },
        1,
    )
    .unwrap();
    let recv = s.recv_batch(&peer2, 2);
    assert_msgs(&recv, &msgs);
}

#[test]
fn recv_normal_many() {
    let (mut s, peer1, peer2) = setup();
    let msgs = vec![
        dummy_msg(peer1.clone(), peer2.clone(), 0),
        dummy_msg(peer1.clone(), peer2.clone(), 1),
    ];
    s.send(
        SendReq {
            msg: Some(msgs[0].clone()),
        },
        1,
    )
    .unwrap();
    s.send(
        SendReq {
            msg: Some(msgs[1].clone()),
        },
        2,
    )
    .unwrap();
    let recv = s.recv_batch(&peer2, 3);
    assert_msgs(&recv, &msgs);
}

#[test]
fn server_recv_first_then_send() {
    let (mut s, peer1, peer2) = setup();
    let msgs = vec![dummy_msg(peer1.clone(), peer2.clone(), 0)];

    s.recv_stream(&peer2, 0).unwrap();
    s.send(
        SendReq {
            msg: Some(msgs[0].clone()),
        },
        1,
    )
    .unwrap();

    let resp = s.recv_batch(&peer2, 2);
    assert_msgs(&resp, &msgs);
}

#[test]
fn query_peers() {
    let (mut s, peer1, peer2) = setup();
    let results = s.manager.collect(&peer1.group_id);
    assert_eq!(results.len(), 0);

    s.recv_stream(&peer1, 0).unwrap();
    s.recv_stream(&peer2, 0).unwrap();
    let mut results = s.manager.collect(&peer1.group_id);
    println!("{:?}", results);
    assert_eq!(results.len(), 2);
    results.sort_by_key(|c| (c.peer_id.clone(), c.conn_id));
    assert_eq!(results[0].peer_id, peer1.peer_id);
    assert_eq!(results[0].conn_id, peer1.conn_id);
    assert_eq!(results[1].peer_id, peer2.peer_id);
    assert_eq!(results[1].conn_id, peer2.conn_id);
}

#[test]
fn discovery_routing_rewrites_conn_id() {
    let (mut s, peer1, peer2) = setup();
    s.recv_stream(&peer1, 0).unwrap();

    let discovery_dst = PeerInfo {
        group_id: String::from("default"),
        peer_id: String::from("peer1"),
        conn_id: 0,
    };
    s.send(
        SendReq {
            msg: Some(dummy_msg(peer2.clone(), discovery_dst, 7)),
        },
        1,
    )
    .unwrap();

    let received = s.recv_batch(&peer1, 2);
    assert_eq!(received.len(), 1);
    let hdr = received[0].header.as_ref().unwrap();
    assert_eq!(hdr.dst.as_ref().unwrap().conn_id, 32);
    assert_eq!(hdr.dst.as_ref().unwrap().peer_id, String::from("peer1"));
    assert_eq!(hdr.seqnum, 7);
}

#[test]
fn discovery_without_peer_is_not_found() {
    let (mut s, _peer1, peer2) = setup();
    let discovery_dst = PeerInfo {
        group_id: String::from("default"),
        peer_id: String::from("peerX"),
        conn_id: 0,
    };
    let r = s.send(
        SendReq {
            msg: Some(dummy_msg(peer2, discovery_dst, 0)),
        },
        1,
    );
    assert_eq!(r, Err(RelayError::NotFound));
}

#[test]
fn recv_with_reserved_conn_id_is_invalid() {
    let (mut s, _peer1, _peer2) = setup();
    let src = PeerInfo {
        group_id: String::from("default"),
        peer_id: String::from("peer1"),
        conn_id: 0,
    };
    let r = s.recv(RecvReq { src: Some(src) }, 1);
    assert_eq!(r, Err(RelayError::InvalidArgument));
}

#[test]
fn send_missing_fields_is_invalid() {
    let (mut s, peer1, peer2) = setup();
    assert_eq!(s.send(SendReq { msg: None }, 1), Err(RelayError::InvalidArgument));

    let no_header = Message {
        header: None,
        payload: MessagePayload { payload_type: None },
    };
    assert_eq!(
        s.send(SendReq { msg: Some(no_header) }, 2),
        Err(RelayError::InvalidArgument)
    );

    let mut no_dst = dummy_msg(peer1, peer2, 0);
    no_dst.header.as_mut().unwrap().dst = None;
    assert_eq!(
        s.send(SendReq { msg: Some(no_dst) }, 3),
        Err(RelayError::InvalidArgument)
    );

    assert_eq!(s.recv(RecvReq { src: None }, 4), Err(RelayError::InvalidArgument));
}

#[test]
fn capacity_keeps_newest_messages() {
    let (_, peer1, peer2) = setup();
    let mut s = Server::new(ServerConfig {
        max_capacity: 10_000,
        mailbox_capacity: 2,
    });
    for seq in 0..5u32 {
        s.send(
            SendReq {
                msg: Some(dummy_msg(peer1.clone(), peer2.clone(), seq)),
            },
            u64::from(seq),
        )
        .unwrap();
    }
    let received = s.recv_batch(&peer2, 9);
    let expected = vec![
        dummy_msg(peer1.clone(), peer2.clone(), 3),
        dummy_msg(peer1.clone(), peer2.clone(), 4),
    ];
    assert_msgs(&received, &expected);
}

#[test]
fn remove_is_idempotent() {
    let (mut s, peer1, peer2) = setup();
    s.recv_stream(&peer1, 0).unwrap();
    s.recv_stream(&peer2, 0).unwrap();

    s.manager.remove(&peer1);
    let once = {
        let mut v = s.manager.collect(&peer1.group_id);
        v.sort_by_key(|c| (c.peer_id.clone(), c.conn_id));
        v
    };
    s.manager.remove(&peer1);
    let twice = {
        let mut v = s.manager.collect(&peer1.group_id);
        v.sort_by_key(|c| (c.peer_id.clone(), c.conn_id));
        v
    };
    assert_eq!(once, twice);
    assert_eq!(once.len(), 1);
    assert_eq!(once[0].peer_id, peer2.peer_id);
}

#[test]
fn closed_stream_not_enumerated() {
    let (mut s, peer1, peer2) = setup();
    s.recv_stream(&peer1, 0).unwrap();
    s.recv_stream(&peer2, 0).unwrap();

    s.manager.remove(&peer1);
    let results = s.manager.collect(&peer1.group_id);
    assert!(!results
        .iter()
        .any(|c| c.peer_id == peer1.peer_id && c.conn_id == peer1.conn_id));
}

#[test]
fn message_is_delivered_exactly_once() {
    let (mut s, peer1, peer2) = setup();
    let msg = dummy_msg(peer1, peer2.clone(), 0);
    s.send(
        SendReq {
            msg: Some(msg.clone()),
        },
        1,
    )
    .unwrap();

    let first = s.recv_batch(&peer2, 2);
    assert_eq!(first.iter().filter(|m| **m == msg).count(), 1);

    let second = s.recv_batch(&peer2, 3);
    assert_eq!(second.len(), 0);
}

#[test]
fn keep_alive_ping_has_no_header() {
    let ping = keep_alive_ping();
    assert!(ping.header.is_none());
    assert_eq!(ping.payload.payload_type, Some(PayloadType::Ping));
}

#[test]
fn payload_messages_carry_headers() {
    let (mut s, peer1, peer2) = setup();
    s.send(
        SendReq {
            msg: Some(dummy_msg(peer1, peer2.clone(), 0)),
        },
        1,
    )
    .unwrap();
    let received = s.recv_batch(&peer2, 2);
    assert!(received.iter().all(|m| m.header.is_some()));
}

#[test]
fn prepare_returns_public_stun() {
    let (s, _peer1, _peer2) = setup();
    let resp = s.prepare();
    assert_eq!(resp.ice_servers.len(), 1);
    assert_eq!(resp.ice_servers[0].urls, vec![String::from("stun:stun.l.google.com:19302")]);
    assert!(resp.ice_servers[0].username.is_none());
    assert!(resp.ice_servers[0].credential.is_none());
}

#[test]
fn default_server_works_end_to_end() {
    let mut s = Server::default();
    let peer1 = PeerInfo {
        group_id: String::from("default"),
        peer_id: String::from("peer1"),
        conn_id: 32,
    };
    let peer2 = PeerInfo {
        group_id: String::from("default"),
        peer_id: String::from("peer2"),
        conn_id: 64,
    };
    let msgs = vec![dummy_msg(peer1, peer2.clone(), 0)];
    s.send(
        SendReq {
            msg: Some(msgs[0].clone()),
        },
        1,
    )
    .unwrap();
    let resp = s
        .recv(
            RecvReq {
                src: Some(peer2),
            },
            2,
        )
        .unwrap();
    assert_msgs(&resp.msgs, &msgs);
}
