use std::collections::VecDeque;

use reliable_transport::status::Status;
use reliable_transport::tcp_header::{TcpHeader, FLAG_PSH_ACK, FLAG_SYN};
use reliable_transport::tcp_receiver::Receiver;
use reliable_transport::tcp_sender::Sender;

const SENDER_PORT: u16 = 40000;
const RECEIVER_PORT: u16 = 50000;

struct Outcome {
    output: Vec<u8>,
    transmissions: usize,
    timeouts: usize,
    fast_retransmits: usize,
    acks: Vec<u32>,
    last_acks: Vec<u32>,
    syn_times: Vec<u64>,
    receiver_status: Status,
    sender: Sender,
}

/// Runs a whole transfer over a simulated network. `network` gets the
/// number of each transmission of the sender and its bytes, and says what
/// reaches the receiver at that moment.
fn transfer(
    input: &[u8],
    sender_isn: u32,
    network: &mut dyn FnMut(usize, Vec<u8>) -> Vec<Vec<u8>>,
) -> Outcome {
    let mut sender = Sender::with_sequence(RECEIVER_PORT, SENDER_PORT, sender_isn);
    let mut receiver = Receiver::with_sequence(RECEIVER_PORT, 1000);
    let mut to_receiver: VecDeque<Vec<u8>> = VecDeque::new();
    let mut to_sender: VecDeque<Vec<u8>> = VecDeque::new();
    let mut outgoing: Vec<Vec<u8>> = Vec::new();
    let mut out = Outcome {
        output: Vec::new(),
        transmissions: 0,
        timeouts: 0,
        fast_retransmits: 0,
        acks: Vec::new(),
        last_acks: Vec::new(),
        syn_times: Vec::new(),
        receiver_status: Status::StandBy,
        sender: Sender::with_sequence(0, 0, 0),
    };
    let mut now: u64 = 0;
    while !sender.is_done() {
        now += 1;
        assert!(now < 100_000, "the transfer does not end");
        assert!(sender.is_well_formed());
        if sender.status == Status::StandBy {
            sender.load_input(input);
            outgoing.extend(sender.start_handshake(now));
        }
        for segment in sender.check_retransmission(now) {
            out.timeouts += 1;
            outgoing.push(segment);
        }
        while let Some(datagram) = to_sender.pop_front() {
            let flowing = sender.status == Status::Sending;
            if flowing {
                out.acks.push(TcpHeader::new(&datagram).ack_number);
            }
            let last_ack = sender.pre_ack;
            if let Some(segment) = sender.on_datagram(&datagram, now) {
                if flowing {
                    out.fast_retransmits += 1;
                }
                outgoing.push(segment);
            }
            if sender.pre_ack != last_ack {
                out.last_acks.push(sender.pre_ack);
            }
            assert!((2..=42).contains(&sender.cwnd));
        }
        outgoing.extend(sender.send_pending(now));
        outgoing.extend(sender.finish(now));
        let flight: u32 = sender.in_flight.iter().map(|p| p.data_len as u32).sum();
        assert_eq!(flight, sender.cur_buf as u32);
        for segment in outgoing.drain(..) {
            if TcpHeader::new(&segment).flags == FLAG_SYN {
                out.syn_times.push(now);
            }
            to_receiver.extend(network(out.transmissions, segment));
            out.transmissions += 1;
        }
        while let Some(datagram) = to_receiver.pop_front() {
            let reply = receiver.on_datagram(&datagram, SENDER_PORT);
            out.output.extend(reply.delivered);
            to_sender.extend(reply.segment);
        }
    }
    assert_eq!(receiver.file, out.output);
    out.receiver_status = receiver.status;
    out.sender = sender;
    out
}

fn text(n: usize) -> Vec<u8> {
    (0..n).map(|i| b' ' + ((i * 7 + i / 95) % 95) as u8).collect()
}

#[test]
fn short_lossless_transfer() {
    let out = transfer(b"hello world\n", 5000, &mut |_, segment| vec![segment]);
    assert_eq!(out.output, b"hello world\n");
    assert_eq!(out.transmissions, 4);
    assert_eq!(out.timeouts, 0);
    assert_eq!(out.fast_retransmits, 0);
    assert_eq!(out.receiver_status, Status::Finished);
    assert_eq!(out.sender.status, Status::Finished);
    assert_eq!(out.acks, vec![5002, 5014]);
}

#[test]
fn empty_input_transfers_nothing() {
    let out = transfer(b"", 5000, &mut |_, segment| vec![segment]);
    assert!(out.output.is_empty());
    assert_eq!(out.transmissions, 3);
    assert_eq!(out.receiver_status, Status::Finished);
}

#[test]
fn reordered_transfer() {
    let input = text(3000);
    let mut held: Option<Vec<u8>> = None;
    let out = transfer(&input, 5000, &mut |n, segment| match n {
        2 => {
            held = Some(segment);
            vec![]
        },
        3 => vec![segment, held.take().unwrap()],
        _ => vec![segment],
    });
    assert_eq!(out.output, input);
    assert_eq!(out.timeouts, 0);
    assert_eq!(out.acks, vec![5002, 5002, 5002 + 2880, 5002 + 3000]);
}

#[test]
fn loss_and_fast_retransmit() {
    let input = text(10 * 1440);
    let out = transfer(&input, 5000, &mut |n, segment| {
        if n == 5 {
            assert_eq!(TcpHeader::new(&segment).flags, FLAG_PSH_ACK);
            assert_eq!(TcpHeader::new(&segment).sequence_number, 5002 + 3 * 1440);
            vec![]
        } else {
            vec![segment]
        }
    });
    assert_eq!(out.output, input);
    assert!(out.fast_retransmits >= 1);
    assert_eq!(out.timeouts, 0);
    let end_of_third = 5002 + 3 * 1440;
    assert!(out.acks.iter().filter(|&&a| a == end_of_third).count() >= 4);
    assert!(out.sender.cwnd <= 42);
}

#[test]
fn corrupted_segment_is_retransmitted_after_timeout() {
    let out = transfer(b"hello world\n", 5000, &mut |n, mut segment| {
        if n == 2 {
            segment[48 + 3] ^= 0x04;
        }
        vec![segment]
    });
    assert_eq!(out.output, b"hello world\n");
    assert_eq!(out.timeouts, 1);
    assert_eq!(out.transmissions, 5);
}

#[test]
fn lost_syn_is_retransmitted_after_initial_timeout() {
    let out = transfer(b"hello world\n", 5000, &mut |n, segment| {
        if n == 0 {
            vec![]
        } else {
            vec![segment]
        }
    });
    assert_eq!(out.output, b"hello world\n");
    assert_eq!(out.syn_times, vec![1, 801]);
    assert_eq!(out.timeouts, 1);
}

#[test]
fn transfer_across_the_sequence_wrap() {
    let input = text(1500);
    let out = transfer(&input, u32::MAX - 499, &mut |_, segment| vec![segment]);
    assert_eq!(out.output, input);
    assert_eq!(out.acks, vec![u32::MAX - 497, 942, 1002]);
    assert_eq!(out.sender.seq_num, 1003);
}

#[test]
fn duplicated_and_permuted_segments_give_the_stream() {
    let input = text(7 * 1440 + 333);
    let mut held: Vec<Vec<u8>> = Vec::new();
    let out = transfer(&input, 123_456, &mut |n, segment| {
        if n < 2 || TcpHeader::new(&segment).flags != FLAG_PSH_ACK {
            return vec![segment];
        }
        held.push(segment);
        if held.len() < 3 {
            return vec![];
        }
        let mut burst: Vec<Vec<u8>> = held.iter().rev().cloned().collect();
        burst.extend(held.drain(..));
        burst
    });
    assert_eq!(out.output, input);
}

#[test]
fn acknowledgements_never_retreat() {
    let input = text(20 * 1440);
    let out = transfer(&input, u32::MAX - 10_000, &mut |n, segment| {
        if n % 7 == 4 {
            vec![]
        } else if n % 5 == 3 {
            vec![segment.clone(), segment]
        } else {
            vec![segment]
        }
    });
    assert_eq!(out.output, input);
    for pair in out.acks.windows(2) {
        assert!(pair[1].wrapping_sub(pair[0]) < 0x8000_0000);
    }
    assert!(out.last_acks.len() >= 2);
    assert_eq!(out.last_acks[0], (u32::MAX - 10_000).wrapping_add(2));
    assert_eq!(
        *out.last_acks.last().unwrap(),
        (u32::MAX - 10_000).wrapping_add(2 + 20 * 1440)
    );
    for pair in out.last_acks.windows(2) {
        assert!(pair[1].wrapping_sub(pair[0]) <= 60480);
    }
}
