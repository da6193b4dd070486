use xenotech::net::transport::{
    poll_connection, Connection, Peers, Received, Socket, Unacked, ACK, TIMEOUT,
};
use xenotech::net::udp::{Header, SocketError};

#[test]
fn send_numbers_packets_in_rising_order() {
    let mut socket = Socket::new();
    assert_eq!(socket.send(9, vec![1], 100), Some(Header { id: 0 }));
    assert_eq!(socket.send(9, vec![2], 101), Some(Header { id: 1 }));
    assert_eq!(socket.send(4, vec![3], 102), Some(Header { id: 2 }));
    assert_eq!(socket.next_id, 3);
    assert_eq!(
        socket.unacked,
        vec![
            Unacked { id: 0, destination: 9, payload: vec![1], last_sent: 100 },
            Unacked { id: 1, destination: 9, payload: vec![2], last_sent: 101 },
            Unacked { id: 2, destination: 4, payload: vec![3], last_sent: 102 },
        ]
    );
}

#[test]
fn send_stops_when_the_ids_run_out() {
    let mut socket = Socket::new();
    socket.next_id = usize::MAX;
    assert_eq!(socket.send(1, vec![], 0), None);
    assert_eq!(socket.next_id, usize::MAX);
    assert!(socket.unacked.is_empty());
}

#[test]
fn a_packet_never_acknowledged_is_sent_again_before_the_timeout() {
    let mut socket = Socket::new();
    let sent_at = 10_000u64;
    let header = socket.send(3, vec![7, 7], sent_at).unwrap();
    let mut resent_at = Vec::new();
    let mut now = sent_at;
    while now < sent_at + TIMEOUT {
        for place in socket.resend_due(now) {
            let packet = &socket.unacked[place];
            assert_eq!(packet.id, header.id);
            assert_eq!(packet.destination, 3);
            assert_eq!(packet.payload, vec![7, 7]);
            assert_eq!(packet.last_sent, now);
            resent_at.push(now);
        }
        now += 100;
    }
    assert_eq!(resent_at, vec![sent_at + ACK, sent_at + 2 * ACK, sent_at + 3 * ACK]);
    assert!(resent_at[0] < sent_at + TIMEOUT);
}

#[test]
fn resend_takes_exactly_the_packets_that_waited_long_enough() {
    let mut socket = Socket::new();
    socket.send(1, vec![0], 0);
    socket.send(1, vec![1], 500);
    socket.send(2, vec![2], 501);
    socket.send(2, vec![3], 5000);
    assert_eq!(socket.resend_due(1499), Vec::<usize>::new());
    assert_eq!(socket.resend_due(2000), vec![0, 1]);
    assert_eq!(socket.unacked[0].last_sent, 2000);
    assert_eq!(socket.unacked[1].last_sent, 2000);
    assert_eq!(socket.unacked[2].last_sent, 501);
    assert_eq!(socket.resend_due(2001), vec![2]);
    // A clock that runs backwards sends nothing again.
    assert_eq!(socket.resend_due(0), Vec::<usize>::new());
    assert_eq!(socket.unacked[3].last_sent, 5000);
}

#[test]
fn an_acknowledgement_ends_the_waiting() {
    let mut socket = Socket::new();
    for i in 0..5u8 {
        socket.send(1, vec![i], 0);
    }
    socket.receive_ack(&[1, 3, 99]);
    let left: Vec<usize> = socket.unacked.iter().map(|u| u.id).collect();
    assert_eq!(left, vec![0, 2, 4]);
    assert_eq!(socket.resend_due(ACK), vec![0, 1, 2]);
    socket.receive_ack(&[0, 2, 4]);
    assert!(socket.unacked.is_empty());
    assert_eq!(socket.resend_due(10 * ACK), Vec::<usize>::new());
    assert_eq!(socket.next_id, 5);
}

#[test]
fn a_message_that_comes_twice_is_taken_once() {
    let mut socket = Socket::new();
    assert!(socket.receive_message(5, 0, 1, vec![10]));
    assert!(!socket.receive_message(5, 0, 1, vec![10]));
    // The same id from another peer is another packet.
    assert!(socket.receive_message(6, 0, 1, vec![11]));
    assert_eq!(socket.inbox.len(), 2);
    assert_eq!(socket.ack_send_ids, vec![(5, 0), (6, 0)]);
    assert_eq!(socket.pending_acks, vec![(5, 0), (6, 0)]);
}

#[test]
fn acknowledgements_are_batched_per_peer() {
    let mut socket = Socket::new();
    socket.send(1, vec![], 0);
    socket.receive_message(5, 3, 0, vec![]);
    socket.receive_message(6, 8, 0, vec![]);
    socket.receive_message(5, 4, 0, vec![]);
    socket.receive_message(5, 3, 0, vec![]);
    let ack = socket.ack(5).unwrap();
    assert_eq!(ack.message, vec![3, 4]);
    assert_eq!(ack.header, Header { id: 1 });
    assert_eq!(socket.pending_acks, vec![(6, 8)]);
    assert!(socket.ack(5).is_none());
    assert!(socket.ack(7).is_none());
    assert_eq!(socket.ack(6).unwrap().message, vec![8]);
    assert!(socket.pending_acks.is_empty());
    // What was acknowledged stays known and is not acknowledged again.
    assert!(!socket.receive_message(5, 4, 0, vec![]));
    assert!(socket.ack(5).is_none());
}

#[test]
fn get_takes_the_messages_of_one_kind_and_leaves_the_others() {
    let mut socket = Socket::new();
    socket.receive_message(1, 0, 7, vec![0]);
    socket.receive_message(2, 0, 8, vec![1]);
    socket.receive_message(1, 1, 7, vec![2]);
    socket.receive_message(2, 1, 7, vec![3]);
    socket.receive_message(1, 2, 9, vec![4]);
    let sevens = socket.get(7);
    assert_eq!(
        sevens,
        vec![
            Received { from: 1, id: 0, kind: 7, payload: vec![0] },
            Received { from: 1, id: 1, kind: 7, payload: vec![2] },
            Received { from: 2, id: 1, kind: 7, payload: vec![3] },
        ]
    );
    assert_eq!(
        socket.inbox,
        vec![
            Received { from: 2, id: 0, kind: 8, payload: vec![1] },
            Received { from: 1, id: 2, kind: 9, payload: vec![4] },
        ]
    );
    assert!(socket.get(7).is_empty());
    assert_eq!(socket.inbox.len(), 2);
}

#[test]
fn get_from_takes_only_what_one_peer_sent() {
    let mut socket = Socket::new();
    socket.receive_message(1, 0, 7, vec![0]);
    socket.receive_message(2, 0, 7, vec![1]);
    socket.receive_message(1, 1, 8, vec![2]);
    socket.receive_message(1, 2, 7, vec![3]);
    let got = socket.get_from(1, 7);
    assert_eq!(got.iter().map(|r| r.id).collect::<Vec<_>>(), vec![0, 2]);
    assert!(got.iter().all(|r| r.from == 1 && r.kind == 7));
    assert_eq!(
        socket.inbox.iter().map(|r| (r.from, r.id)).collect::<Vec<_>>(),
        vec![(2, 0), (1, 1)]
    );
}

#[test]
fn a_connection_attempt_times_out() {
    let waiting = Connection::Connecting { since: 1000 };
    assert_eq!(poll_connection(waiting, false, 1000), Ok(waiting));
    assert_eq!(poll_connection(waiting, false, 1000 + TIMEOUT), Ok(waiting));
    assert_eq!(poll_connection(waiting, false, 1001 + TIMEOUT), Err(SocketError::Timeout));
    assert_eq!(poll_connection(waiting, true, 1001 + TIMEOUT), Ok(Connection::Connected));
    assert_eq!(poll_connection(waiting, true, 0), Ok(Connection::Connected));
    assert_eq!(poll_connection(waiting, false, 0), Ok(waiting));
    assert_eq!(poll_connection(Connection::Connected, false, u64::MAX), Ok(Connection::Connected));
}

#[test]
fn peers_that_stay_silent_are_dropped() {
    let mut peers = Peers::new();
    assert!(peers.touch(1, 0));
    assert!(peers.touch(2, 100));
    assert!(peers.touch(3, 200));
    assert!(!peers.touch(2, 4000));
    assert_eq!(peers.heard, vec![(1, 0), (2, 4000), (3, 200)]);
    assert_eq!(peers.prune(5000), Vec::<u64>::new());
    assert_eq!(peers.prune(5201), vec![1, 3]);
    assert_eq!(peers.heard, vec![(2, 4000)]);
    assert_eq!(peers.prune(9000), Vec::<u64>::new());
    assert_eq!(peers.prune(9001), vec![2]);
    assert!(peers.heard.is_empty());
}

#[test]
fn the_retry_interval_is_shorter_than_the_timeout() {
    assert_eq!(ACK, 1500);
    assert_eq!(TIMEOUT, 5000);
    assert!(ACK < TIMEOUT);
}
