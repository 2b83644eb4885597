use pulsebeam_relay::Mailbox;
use pulsebeam_relay::Manager;
use pulsebeam_relay::ManagerConfig;
use pulsebeam_relay::Message;
use pulsebeam_relay::MessageHeader;
use pulsebeam_relay::MessagePayload;
use pulsebeam_relay::PeerInfo;
use pulsebeam_relay::SESSION_POLL_TIMEOUT_MS;
use pulsebeam_relay::SendReq;
use pulsebeam_relay::Server;
use pulsebeam_relay::ServerConfig;

fn msg_with_seq(seqnum: u32) -> Message {
    let peer = |id: &str, conn: u32| PeerInfo {
        group_id: String::from("default"),
        peer_id: String::from(id),
        conn_id: conn,
    };
    Message {
        header: Some(MessageHeader {
            src: Some(peer("a", 1)),
            dst: Some(peer("b", 2)),
            seqnum,
            reliable: true,
        }),
        payload: MessagePayload { payload_type: None },
    }
}

#[test]
fn mailbox_drops_oldest_on_overflow() {
    let mut mb = Mailbox::new(2, 0);
    mb.send(msg_with_seq(0), 1);
    mb.send(msg_with_seq(1), 2);
    mb.send(msg_with_seq(2), 3);
    let drained = mb.drain(4);
    assert_eq!(drained, vec![msg_with_seq(1), msg_with_seq(2)]);
    assert!(mb.is_empty());
}

#[test]
fn mailbox_delivers_in_fifo_order() {
    let mut mb = Mailbox::new(8, 0);
    for seq in 0..5u32 {
        mb.send(msg_with_seq(seq), u64::from(seq));
    }
    let drained = mb.drain(9);
    let seqs: Vec<u32> = drained
        .iter()
        .map(|m| m.header.as_ref().unwrap().seqnum)
        .collect();
    assert_eq!(seqs, vec![0, 1, 2, 3, 4]);
}

#[test]
fn mailbox_wake_is_coalesced() {
    let mut mb = Mailbox::new(8, 0);
    assert!(mb.send(msg_with_seq(0), 1));
    assert!(!mb.send(msg_with_seq(1), 2));
    assert!(!mb.send(msg_with_seq(2), 3));
    mb.drain(4);
    assert!(mb.send(msg_with_seq(3), 5));
}

#[test]
fn mailbox_delivers_duplicates_without_dedup() {
    let mut mb = Mailbox::new(8, 0);
    mb.send(msg_with_seq(0), 1);
    mb.send(msg_with_seq(0), 2);
    let drained = mb.drain(3);
    assert_eq!(drained.len(), 2);
    assert_eq!(drained[0], drained[1]);
}

#[test]
fn mailbox_idle_eligibility() {
    let mut mb = Mailbox::new(4, 0);
    mb.send(msg_with_seq(0), 1_000);
    assert!(!mb.is_idle(1_000 + SESSION_POLL_TIMEOUT_MS - 1));
    assert!(mb.is_idle(1_000 + SESSION_POLL_TIMEOUT_MS));
}

#[test]
fn manager_select_one_finds_registered_conn() {
    let mut m = Manager::new(ManagerConfig {
        max_groups: 8,
        max_peers_per_group: 4,
    });
    let group = String::from("default");
    let peer = String::from("peer1");
    assert_eq!(m.select_one(&group, &peer), None);

    let src = PeerInfo {
        group_id: group.clone(),
        peer_id: peer.clone(),
        conn_id: 32,
    };
    m.register(&src, 0);
    assert_eq!(m.select_one(&group, &peer), Some(32));
    assert_eq!(m.select_one(&group, &String::from("peer2")), None);
}

#[test]
fn manager_wake_fires_once_per_burst() {
    let mut m = Manager::new(ManagerConfig {
        max_groups: 8,
        max_peers_per_group: 4,
    });
    let dst = PeerInfo {
        group_id: String::from("default"),
        peer_id: String::from("peer1"),
        conn_id: 32,
    };
    assert!(m.send_to(&dst, msg_with_seq(0), 1));
    assert!(!m.send_to(&dst, msg_with_seq(1), 2));
    m.drain(&dst, 3);
    assert!(m.send_to(&dst, msg_with_seq(2), 4));
}

#[test]
fn idle_eviction_reclaims_and_recovers() {
    let mut s = Server::new(ServerConfig {
        max_capacity: 100,
        mailbox_capacity: 8,
    });
    let peer1 = PeerInfo {
        group_id: String::from("default"),
        peer_id: String::from("peer1"),
        conn_id: 32,
    };
    // the destination of `msg_with_seq`
    let peer2 = PeerInfo {
        group_id: String::from("default"),
        peer_id: String::from("b"),
        conn_id: 2,
    };
    s.send(
        SendReq {
            msg: Some(msg_with_seq(0)),
        },
        0,
    )
    .unwrap();
    s.recv_stream(&peer1, 0).unwrap();

    // peer1 stays fresh, the other mailbox goes idle
    s.recv_stream(&peer1, SESSION_POLL_TIMEOUT_MS / 2).unwrap();
    s.manager.evict_idle(SESSION_POLL_TIMEOUT_MS);

    let listed = s.manager.collect(&peer1.group_id);
    assert_eq!(listed.len(), 1);
    assert_eq!(listed[0].peer_id, peer1.peer_id);

    // a fresh send and receive after eviction still work
    s.send(
        SendReq {
            msg: Some(msg_with_seq(1)),
        },
        SESSION_POLL_TIMEOUT_MS + 1,
    )
    .unwrap();
    let received = s.recv_batch(&peer2, SESSION_POLL_TIMEOUT_MS + 2);
    assert_eq!(received.len(), 1);
}

#[test]
fn group_peer_cap_evicts_oldest() {
    let mut m = Manager::new(ManagerConfig {
        max_groups: 4,
        max_peers_per_group: 2,
    });
    let conn = |id: &str, c: u32| PeerInfo {
        group_id: String::from("default"),
        peer_id: String::from(id),
        conn_id: c,
    };
    m.register(&conn("a", 1), 0);
    m.register(&conn("b", 2), 1);
    m.register(&conn("c", 3), 2);
    let listed = m.collect(&String::from("default"));
    assert_eq!(listed.len(), 2);
    assert!(listed.iter().any(|p| p.peer_id == "c"));
}
