use reliable_transport::status::Status;
use reliable_transport::tcp_header::{
    TcpHeader, FLAG_ACK, FLAG_FIN, FLAG_FIN_ACK, FLAG_PSH_ACK, FLAG_SYN, FLAG_SYN_ACK,
};
use reliable_transport::tcp_receiver::{Receiver, RECEIVER_WINDOW};

const PEER_PORT: u16 = 40000;
const LOCAL_PORT: u16 = 50000;

fn segment(seq: u32, ack: u32, flags: u8, payload: &[u8]) -> Vec<u8> {
    let header = TcpHeader {
        source_port: PEER_PORT,
        destination_port: LOCAL_PORT,
        sequence_number: seq,
        ack_number: ack,
        header_length: 4,
        flags,
        window_size: 46720,
        hash_value: [0u8; 32],
    }
    .seal(payload);
    let mut bytes = header.as_bytes();
    bytes.extend_from_slice(payload);
    bytes
}

fn connected(peer_isn: u32, own_isn: u32) -> Receiver {
    let mut receiver = Receiver::with_sequence(LOCAL_PORT, own_isn);
    let reply = receiver.on_datagram(&segment(peer_isn, 0, FLAG_SYN, b""), PEER_PORT);
    assert!(reply.segment.is_some());
    let reply = receiver.on_datagram(
        &segment(peer_isn.wrapping_add(1), own_isn.wrapping_add(1), FLAG_ACK, b""),
        PEER_PORT,
    );
    assert!(reply.segment.is_some());
    assert_eq!(receiver.status, Status::Sending);
    receiver
}

fn header_of(reply: &Option<Vec<u8>>) -> TcpHeader {
    let bytes = reply.as_ref().unwrap();
    assert_eq!(bytes.len(), 48);
    let header = TcpHeader::new(bytes);
    assert!(header.verify(b""));
    header
}

fn snapshot(r: &Receiver) -> (u16, Status, u32, u32, Vec<u8>, usize, usize) {
    (r.remote_port, r.status, r.seq_num, r.ack_num, r.file.clone(), r.cache.len(), r.seen.len())
}

#[test]
fn receiver_starts_in_standby() {
    let receiver = Receiver::with_sequence(LOCAL_PORT, 77);
    assert_eq!(receiver.status, Status::StandBy);
    assert_eq!(receiver.seq_num, 77);
    assert_eq!(receiver.ack_num, 0);
    assert_eq!(receiver.local_port, LOCAL_PORT);
    assert_eq!(receiver.remote_port, 0);
    assert_eq!(receiver.wnd_size, RECEIVER_WINDOW);
    assert_eq!(receiver.wnd_size, 65340);
    assert!(receiver.file.is_empty());
    assert!(receiver.cache.is_empty());
    assert!(receiver.seen.is_empty());
}

#[test]
fn receiver_new_draws_a_sequence_number() {
    let receiver = Receiver::new(LOCAL_PORT);
    assert_eq!(receiver.status, Status::StandBy);
    assert_eq!(receiver.local_port, LOCAL_PORT);
    assert_eq!(receiver.ack_num, 0);
}

#[test]
fn syn_is_answered_with_syn_ack() {
    let mut receiver = Receiver::with_sequence(LOCAL_PORT, 1000);
    let reply = receiver.on_datagram(&segment(5000, 0, FLAG_SYN, b""), PEER_PORT);
    let header = header_of(&reply.segment);
    assert_eq!(header.flags, FLAG_SYN_ACK);
    assert_eq!(header.sequence_number, 1000);
    assert_eq!(header.ack_number, 5001);
    assert_eq!(header.source_port, LOCAL_PORT);
    assert_eq!(header.destination_port, PEER_PORT);
    assert_eq!(header.header_length, 4);
    assert_eq!(header.window_size, 65340);
    assert!(reply.delivered.is_empty());
    assert_eq!(receiver.status, Status::Handshake);
    assert_eq!(receiver.ack_num, 5001);
    assert_eq!(receiver.seq_num, 1001);
    assert_eq!(receiver.remote_port, PEER_PORT);
}

#[test]
fn standby_drops_everything_but_syn() {
    for flags in [FLAG_ACK, FLAG_PSH_ACK, FLAG_FIN, FLAG_SYN_ACK, FLAG_FIN_ACK, 0u8, 0x3f] {
        let mut receiver = Receiver::with_sequence(LOCAL_PORT, 1000);
        let before = snapshot(&receiver);
        let reply = receiver.on_datagram(&segment(5000, 0, flags, b""), PEER_PORT);
        assert!(reply.segment.is_none());
        assert!(reply.delivered.is_empty());
        assert_eq!(snapshot(&receiver), before);
    }
}

#[test]
fn handshake_completes_on_matching_ack() {
    let mut receiver = Receiver::with_sequence(LOCAL_PORT, 1000);
    receiver.on_datagram(&segment(5000, 0, FLAG_SYN, b""), PEER_PORT);
    let before = snapshot(&receiver);
    let reply = receiver.on_datagram(&segment(5002, 1001, FLAG_ACK, b""), PEER_PORT);
    assert!(reply.segment.is_none());
    assert_eq!(snapshot(&receiver), before);
    let reply = receiver.on_datagram(&segment(5001, 1001, FLAG_SYN, b""), PEER_PORT);
    assert!(reply.segment.is_none());
    assert_eq!(snapshot(&receiver), before);
    let reply = receiver.on_datagram(&segment(5001, 1001, FLAG_ACK, b""), PEER_PORT);
    let header = header_of(&reply.segment);
    assert_eq!(header.flags, FLAG_ACK);
    assert_eq!(header.sequence_number, 1001);
    assert_eq!(header.ack_number, 5002);
    assert_eq!(receiver.status, Status::Sending);
    assert_eq!(receiver.ack_num, 5002);
    assert_eq!(receiver.seq_num, 1002);
}

#[test]
fn in_order_segment_is_delivered_and_acknowledged() {
    let mut receiver = connected(5000, 1000);
    let reply = receiver.on_datagram(&segment(5002, 1001, FLAG_PSH_ACK, b"hello world\n"), PEER_PORT);
    assert_eq!(reply.delivered, b"hello world\n");
    let header = header_of(&reply.segment);
    assert_eq!(header.flags, FLAG_ACK);
    assert_eq!(header.ack_number, 5014);
    assert_eq!(header.sequence_number, 1002);
    assert_eq!(receiver.ack_num, 5014);
    assert_eq!(receiver.seq_num, 1003);
    assert_eq!(receiver.file, b"hello world\n");
    assert!(receiver.seen.contains(&5002));
}

#[test]
fn reordered_segments_are_chained() {
    let input: Vec<u8> = (0..3000u32).map(|i| b'a' + (i % 26) as u8).collect();
    let (one, rest) = input.split_at(1440);
    let (two, three) = rest.split_at(1440);
    assert_eq!(three.len(), 120);
    let mut receiver = connected(5000, 1000);
    let start = 5002u32;

    let reply = receiver.on_datagram(&segment(start + 1440, 1001, FLAG_PSH_ACK, two), PEER_PORT);
    assert!(reply.delivered.is_empty());
    assert_eq!(header_of(&reply.segment).ack_number, start);
    assert_eq!(header_of(&reply.segment).flags, FLAG_ACK);
    assert_eq!(receiver.ack_num, start);
    assert_eq!(receiver.cache.get(&(start + 1440)).unwrap().as_slice(), two);
    assert!(receiver.seen.contains(&(start + 1440)));

    let reply = receiver.on_datagram(&segment(start, 1001, FLAG_PSH_ACK, one), PEER_PORT);
    assert_eq!(reply.delivered, &input[..2880]);
    assert_eq!(header_of(&reply.segment).ack_number, start + 2880);
    assert_eq!(receiver.ack_num, start + 2880);
    assert_eq!(receiver.cache.len(), 1);
    assert_eq!(receiver.cache.get(&(start + 1440)).unwrap().as_slice(), two);

    let reply = receiver.on_datagram(&segment(start + 2880, 1001, FLAG_PSH_ACK, three), PEER_PORT);
    assert_eq!(reply.delivered, three);
    assert_eq!(header_of(&reply.segment).ack_number, start + 3000);
    assert_eq!(receiver.file, input);
}

#[test]
fn duplicates_are_not_delivered_twice() {
    let mut receiver = connected(5000, 1000);
    let first = segment(5002, 1001, FLAG_PSH_ACK, b"abc");
    let second = segment(5005, 1001, FLAG_PSH_ACK, b"def");
    assert_eq!(receiver.on_datagram(&second, PEER_PORT).delivered, b"");
    assert_eq!(receiver.on_datagram(&second, PEER_PORT).delivered, b"");
    assert_eq!(receiver.cache.len(), 1);
    assert_eq!(receiver.on_datagram(&first, PEER_PORT).delivered, b"abcdef");
    let before = snapshot(&receiver);
    let reply = receiver.on_datagram(&first, PEER_PORT);
    assert!(reply.delivered.is_empty());
    assert_eq!(header_of(&reply.segment).ack_number, 5008);
    let reply = receiver.on_datagram(&second, PEER_PORT);
    assert!(reply.delivered.is_empty());
    assert_eq!(header_of(&reply.segment).ack_number, 5008);
    assert_eq!(receiver.file, b"abcdef");
    assert_eq!(receiver.ack_num, before.3);
    assert_eq!(receiver.cache.len(), 1);
    assert_eq!(receiver.cache.get(&5005).unwrap().as_slice(), b"def");
}

#[test]
fn out_of_order_arrivals_draw_the_same_acknowledgement() {
    let mut receiver = connected(5000, 1000);
    receiver.on_datagram(&segment(5002, 1001, FLAG_PSH_ACK, b"one"), PEER_PORT);
    for (i, payload) in [b"thr", b"fou", b"fiv"].iter().enumerate() {
        let seq = 5008 + 3 * i as u32;
        let reply = receiver.on_datagram(&segment(seq, 1001, FLAG_PSH_ACK, *payload), PEER_PORT);
        assert!(reply.delivered.is_empty());
        assert_eq!(header_of(&reply.segment).ack_number, 5005);
    }
    let reply = receiver.on_datagram(&segment(5005, 1001, FLAG_PSH_ACK, b"two"), PEER_PORT);
    assert_eq!(reply.delivered, b"twothrfoufiv");
    assert_eq!(header_of(&reply.segment).ack_number, 5017);
}

#[test]
fn broken_digest_changes_nothing() {
    let mut receiver = connected(5000, 1000);
    let good = segment(5002, 1001, FLAG_PSH_ACK, b"hello world\n");
    for bit in [0usize, 37, 100, 127, 128, 200, 383, 384, 400, 479] {
        let mut bad = good.clone();
        bad[bit / 8] ^= 1 << (bit % 8);
        let before = snapshot(&receiver);
        let reply = receiver.on_datagram(&bad, PEER_PORT);
        assert!(reply.segment.is_none());
        assert!(reply.delivered.is_empty());
        assert_eq!(snapshot(&receiver), before);
    }
    assert_eq!(receiver.on_datagram(&good, PEER_PORT).delivered, b"hello world\n");
}

#[test]
fn broken_digest_is_dropped_in_every_state() {
    let mut syn = segment(5000, 0, FLAG_SYN, b"");
    syn[20] ^= 0x10;
    let mut receiver = Receiver::with_sequence(LOCAL_PORT, 1000);
    let before = snapshot(&receiver);
    assert!(receiver.on_datagram(&syn, PEER_PORT).segment.is_none());
    assert_eq!(snapshot(&receiver), before);

    receiver.on_datagram(&segment(5000, 0, FLAG_SYN, b""), PEER_PORT);
    let mut ack = segment(5001, 1001, FLAG_ACK, b"");
    ack[47] ^= 0x01;
    let before = snapshot(&receiver);
    assert!(receiver.on_datagram(&ack, PEER_PORT).segment.is_none());
    assert_eq!(snapshot(&receiver), before);

    let mut receiver = connected(5000, 1000);
    let mut fin = segment(5002, 1001, FLAG_FIN, b"");
    fin[16] ^= 0x01;
    let before = snapshot(&receiver);
    assert!(receiver.on_datagram(&fin, PEER_PORT).segment.is_none());
    assert_eq!(snapshot(&receiver), before);
}

#[test]
fn short_datagram_is_dropped() {
    let mut receiver = connected(5000, 1000);
    let good = segment(5002, 1001, FLAG_PSH_ACK, b"");
    let before = snapshot(&receiver);
    for len in [0usize, 1, 16, 47] {
        let reply = receiver.on_datagram(&good[..len], PEER_PORT);
        assert!(reply.segment.is_none());
        assert_eq!(snapshot(&receiver), before);
    }
}

#[test]
fn unexpected_flags_are_dropped_while_data_flows() {
    for flags in [FLAG_SYN, FLAG_SYN_ACK, FLAG_FIN_ACK, 0x04u8, 0x20, 0x08, 0] {
        let mut receiver = connected(5000, 1000);
        let before = snapshot(&receiver);
        let reply = receiver.on_datagram(&segment(5002, 1001, flags, b""), PEER_PORT);
        assert!(reply.segment.is_none());
        assert_eq!(snapshot(&receiver), before);
    }
}

#[test]
fn payload_ends_at_first_zero_byte() {
    let mut receiver = connected(5000, 1000);
    let header = TcpHeader {
        source_port: PEER_PORT,
        destination_port: LOCAL_PORT,
        sequence_number: 5002,
        ack_number: 1001,
        header_length: 4,
        flags: FLAG_PSH_ACK,
        window_size: 46720,
        hash_value: [0u8; 32],
    }
    .seal(b"abc");
    let mut datagram = header.as_bytes();
    datagram.extend_from_slice(b"abc\0\0\0\0");
    let reply = receiver.on_datagram(&datagram, PEER_PORT);
    assert_eq!(reply.delivered, b"abc");
    assert_eq!(receiver.ack_num, 5005);
}

#[test]
fn fin_in_order_ends_the_transfer() {
    let mut receiver = connected(5000, 1000);
    receiver.on_datagram(&segment(5002, 1001, FLAG_PSH_ACK, b"bye"), PEER_PORT);
    let reply = receiver.on_datagram(&segment(5005, 1001, FLAG_FIN, b""), PEER_PORT);
    let header = header_of(&reply.segment);
    assert_eq!(header.flags, FLAG_FIN_ACK);
    assert_eq!(header.ack_number, 5006);
    assert!(reply.delivered.is_empty());
    assert_eq!(receiver.status, Status::Finished);
    assert_eq!(receiver.file, b"bye");
}

#[test]
fn fin_out_of_order_is_held_back() {
    let mut receiver = connected(5000, 1000);
    let reply = receiver.on_datagram(&segment(5005, 1001, FLAG_FIN, b""), PEER_PORT);
    assert_eq!(header_of(&reply.segment).flags, FLAG_ACK);
    assert_eq!(header_of(&reply.segment).ack_number, 5002);
    assert_eq!(receiver.status, Status::Sending);
}

#[test]
fn finished_receiver_repeats_fin_ack_on_tick() {
    let mut receiver = connected(5000, 1000);
    receiver.on_datagram(&segment(5002, 1001, FLAG_FIN, b""), PEER_PORT);
    assert_eq!(receiver.status, Status::Finished);
    let seq = receiver.seq_num;
    for i in 0..3u32 {
        let reply = receiver.on_tick();
        let header = header_of(&reply.segment);
        assert_eq!(header.flags, FLAG_FIN_ACK);
        assert_eq!(header.ack_number, 5003);
        assert_eq!(header.sequence_number, seq + i);
    }
    assert_eq!(receiver.ack_num, 5003);
    let before = snapshot(&receiver);
    let reply = receiver.on_datagram(&segment(5002, 1001, FLAG_FIN, b""), PEER_PORT);
    assert!(reply.segment.is_none());
    assert_eq!(snapshot(&receiver), before);
}

#[test]
fn tick_does_nothing_before_the_end() {
    let mut receiver = Receiver::with_sequence(LOCAL_PORT, 1000);
    assert!(receiver.on_tick().segment.is_none());
    let mut receiver = connected(5000, 1000);
    let before = snapshot(&receiver);
    assert!(receiver.on_tick().segment.is_none());
    assert_eq!(snapshot(&receiver), before);
}

#[test]
fn send_ack_advances_except_for_bare_fin() {
    let mut receiver = connected(5000, 1000);
    let bytes = receiver.send_ack(10, FLAG_ACK);
    assert_eq!(TcpHeader::new(&bytes).ack_number, 5012);
    assert_eq!(receiver.ack_num, 5012);
    assert_eq!(receiver.seq_num, 1003);
    let bytes = receiver.send_ack(10, FLAG_FIN);
    assert_eq!(TcpHeader::new(&bytes).ack_number, 5012);
    assert_eq!(TcpHeader::new(&bytes).flags, FLAG_FIN);
    assert_eq!(receiver.ack_num, 5012);
    assert_eq!(receiver.seq_num, 1004);
}

#[test]
fn check_cache_walks_the_run_and_stops_at_a_gap() {
    let mut receiver = connected(5000, 1000);
    receiver.cache.insert(100, b"ab".to_vec());
    receiver.cache.insert(102, b"cde".to_vec());
    receiver.cache.insert(106, b"zz".to_vec());
    let before = snapshot(&receiver);
    assert_eq!(receiver.check_cache(100), b"abcde");
    assert_eq!(receiver.check_cache(102), b"cde");
    assert_eq!(receiver.check_cache(106), b"zz");
    assert_eq!(receiver.check_cache(101), b"");
    assert_eq!(receiver.check_cache(100), b"abcde");
    assert_eq!(receiver.cache.len(), 3);
    assert_eq!(receiver.cache.get(&100).unwrap().as_slice(), b"ab");
    assert_eq!(receiver.cache.get(&102).unwrap().as_slice(), b"cde");
    assert_eq!(receiver.cache.get(&106).unwrap().as_slice(), b"zz");
    assert_eq!(snapshot(&receiver), before);
}

#[test]
fn check_cache_ends_on_an_empty_payload_and_on_a_cycle() {
    let mut receiver = connected(5000, 1000);
    receiver.cache.insert(100, b"ab".to_vec());
    receiver.cache.insert(102, Vec::new());
    assert_eq!(receiver.check_cache(100), b"ab");
    assert_eq!(receiver.check_cache(102), b"");
    let mut receiver = connected(5000, 1000);
    receiver.cache.insert(u32::MAX - 1, b"wxyz".to_vec());
    receiver.cache.insert(2, vec![b'q'; 5]);
    assert_eq!(receiver.check_cache(u32::MAX - 1), b"wxyzqqqqq");
    assert_eq!(receiver.cache.len(), 2);
}

#[test]
fn acknowledgements_wrap_with_the_sequence_space() {
    let isn = u32::MAX - 501;
    let mut receiver = connected(isn, 1000);
    let start = isn.wrapping_add(2);
    assert_eq!(start, u32::MAX - 499);
    let input: Vec<u8> = (0..1500u32).map(|i| b'A' + (i % 26) as u8).collect();
    let reply = receiver.on_datagram(&segment(start.wrapping_add(1440), 1001, FLAG_PSH_ACK, &input[1440..]), PEER_PORT);
    assert_eq!(header_of(&reply.segment).ack_number, start);
    let reply = receiver.on_datagram(&segment(start, 1001, FLAG_PSH_ACK, &input[..1440]), PEER_PORT);
    assert_eq!(reply.delivered, input);
    assert_eq!(header_of(&reply.segment).ack_number, 1000);
    assert_eq!(receiver.ack_num, 1000);
}
