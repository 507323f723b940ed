//! The sending endpoint: cuts the input into segments, opens the
//! connection, keeps what is unacknowledged for retransmission, paces itself
//! by a congestion window, and closes the connection.

use vstd::prelude::*;
use std::collections::VecDeque;
use crate::entropy::random_sequence_number;
use crate::status::Status;
use crate::tcp_header::{
    decoded, zero_digest, HeaderView, TcpHeader, FLAG_ACK, FLAG_FIN, FLAG_PSH_ACK, FLAG_SYN,
    FLAG_SYN_ACK, HEADER_LEN, HEADER_WORDS, MAX_PAYLOAD,
};
use crate::util::{ahead_by, lemma_ahead_by_wrap_add, lemma_wrap_add_add, safe_increment, wrap_add};

verus! {

/// Most payload bytes that the sender puts into one segment.
pub const SEGMENT_SIZE: usize = 1440;

/// The smallest congestion window, in segments.
pub const MIN_CWND: u16 = 2;

/// The largest congestion window, in segments.
pub const MAX_CWND: u16 = 42;

/// The largest effective window, in bytes: `MAX_CWND` segments.
pub const MAX_WINDOW: u16 = 60480;

/// The window that a sender advertises, in bytes.
pub const SENDER_WINDOW: u16 = 46720;

/// The bounds of the smoothed round-trip time, in milliseconds.
pub const MIN_RTT: u64 = 5;

pub const MAX_RTT: u64 = 900;

/// A transmitted segment as a mathematical value.
pub struct PacketView {
    pub timestamp: u64,
    pub data: Seq<u8>,
    pub seq_num: u32,
    pub ack_num: u32,
    pub confirm_ack: u32,
    pub data_len: u16,
}

/// A segment that was transmitted and is not acknowledged yet.
#[derive(Debug)]
pub struct Packet {
    /// When it was last transmitted, in milliseconds.
    pub timestamp: u64,
    /// The segment as it goes on the wire.
    pub data: Vec<u8>,
    pub seq_num: u32,
    pub ack_num: u32,
    /// The acknowledgement number that retires it.
    pub confirm_ack: u32,
    /// The sequence numbers that it takes up: its payload length, or one
    /// for a segment without payload.
    pub data_len: u16,
}

impl View for Packet {
    type V = PacketView;

    open spec fn view(&self) -> PacketView {
        PacketView {
            timestamp: self.timestamp,
            data: self.data@,
            seq_num: self.seq_num,
            ack_num: self.ack_num,
            confirm_ack: self.confirm_ack,
            data_len: self.data_len,
        }
    }
}

/// A sender as a mathematical value.
pub struct SenderView {
    pub remote_port: u16,
    pub local_port: u16,
    pub status: Status,
    pub seq_num: u32,
    pub ack_num: u32,
    pub data: Seq<Seq<u8>>,
    pub rto: u64,
    pub rtt: u64,
    pub in_flight: Seq<PacketView>,
    pub wnd_size: u16,
    pub cur_wnd: u16,
    pub ssthresh: u16,
    pub cwnd: u16,
    pub count: u8,
    pub cur_buf: u16,
    pub pre_ack: u32,
}

/// The sending endpoint.
#[derive(Debug)]
pub struct Sender {
    pub remote_port: u16,
    pub local_port: u16,
    pub status: Status,
    pub seq_num: u32,
    pub ack_num: u32,
    /// The payloads that wait for their first transmission, in order.
    pub data: VecDeque<Vec<u8>>,
    /// The retransmission timeout in milliseconds: twice the smoothed
    /// round-trip time.
    pub rto: u64,
    /// The smoothed round-trip time in milliseconds.
    pub rtt: u64,
    /// The unacknowledged segments, in the order of their transmission.
    pub in_flight: VecDeque<Packet>,
    /// The window that this endpoint advertises.
    pub wnd_size: u16,
    /// The effective window in bytes.
    pub cur_wnd: u16,
    pub ssthresh: u16,
    /// The congestion window in segments.
    pub cwnd: u16,
    /// How often the last acknowledgement has been repeated.
    pub count: u8,
    /// The sequence numbers taken up by the unacknowledged segments.
    pub cur_buf: u16,
    /// The last acknowledgement number that retired a segment.
    pub pre_ack: u32,
}

/// The segments, as byte sequences, of a list of byte vectors.
pub open spec fn views(v: Seq<Vec<u8>>) -> Seq<Seq<u8>> {
    Seq::new(v.len(), |i: int| v[i]@)
}

/// The segment, as a byte sequence, that may or may not be there.
pub open spec fn view_of(v: Option<Vec<u8>>) -> Option<Seq<u8>> {
    match v {
        Some(bytes) => Some(bytes@),
        None => None,
    }
}

/// The unacknowledged segments as mathematical values.
pub open spec fn packet_views(queue: Seq<Packet>) -> Seq<PacketView> {
    Seq::new(queue.len(), |i: int| queue[i]@)
}

impl View for Sender {
    type V = SenderView;

    open spec fn view(&self) -> SenderView {
        SenderView {
            remote_port: self.remote_port,
            local_port: self.local_port,
            status: self.status,
            seq_num: self.seq_num,
            ack_num: self.ack_num,
            data: views(self.data@),
            rto: self.rto,
            rtt: self.rtt,
            in_flight: packet_views(self.in_flight@),
            wnd_size: self.wnd_size,
            cur_wnd: self.cur_wnd,
            ssthresh: self.ssthresh,
            cwnd: self.cwnd,
            count: self.count,
            cur_buf: self.cur_buf,
            pre_ack: self.pre_ack,
        }
    }
}

/// The sequence numbers that a queue of unacknowledged segments takes up.
pub open spec fn flight_bytes(s: Seq<PacketView>) -> int
    decreases s.len(),
{
    if s.len() == 0 {
        0
    } else {
        s[0].data_len + flight_bytes(s.drop_first())
    }
}

/// The time since `timestamp`, or zero where the clock ran backwards.
pub open spec fn age(timestamp: u64, now: u64) -> int {
    if now >= timestamp {
        now - timestamp
    } else {
        0
    }
}

/// The index at or after `i` of the first segment that is not yet due for
/// retransmission, or the length of the queue where all are due.
pub open spec fn due_until(s: Seq<PacketView>, now: u64, rto: u64, i: int) -> int
    decreases s.len() - i,
{
    if i < 0 || i >= s.len() {
        s.len() as int
    } else if age(s[i].timestamp, now) >= rto {
        due_until(s, now, rto, i + 1)
    } else {
        i
    }
}

/// The index at or after `i` of the first segment that `ack` retires, or
/// the length of the queue where there is none.
pub open spec fn confirm_from(s: Seq<PacketView>, ack: u32, i: int) -> int
    decreases s.len() - i,
{
    if i < 0 || i >= s.len() {
        s.len() as int
    } else if s[i].confirm_ack == ack {
        i
    } else {
        confirm_from(s, ack, i + 1)
    }
}

/// The congestion window within its bounds.
pub open spec fn clamp_cwnd(raw: int) -> u16 {
    if raw >= 42 {
        42
    } else if raw < 2 {
        2
    } else {
        raw as u16
    }
}

/// The smoothed round-trip time after a sample: 85 parts old to 15 parts
/// new, within its bounds.
pub open spec fn smoothed(rtt: u64, sample: int) -> u64 {
    let raw = rtt * 85 / 100 + sample * 15 / 100;
    if raw < 5 {
        5
    } else if raw > 900 {
        900
    } else {
        raw as u64
    }
}

/// The piece of `input` that becomes payload number `i`.
pub open spec fn chunk(input: Seq<u8>, i: int) -> Seq<u8> {
    input.subrange(i * 1440, if (i + 1) * 1440 < input.len() {
        (i + 1) * 1440
    } else {
        input.len() as int
    })
}

/// `input` cut into payloads of 1440 bytes, the last one shorter where the
/// length asks for it.
pub open spec fn chunks(input: Seq<u8>) -> Seq<Seq<u8>> {
    Seq::new(((input.len() + 1439) / 1440) as nat, |i: int| chunk(input, i))
}

/// Appending a segment adds what it takes up.
proof fn lemma_flight_bytes_push(s: Seq<PacketView>, p: PacketView)
    ensures
        flight_bytes(s.push(p)) == flight_bytes(s) + p.data_len,
    decreases s.len(),
{
    if s.len() == 0 {
        assert(s.push(p).drop_first() =~= Seq::empty());
        assert(flight_bytes(s.push(p).drop_first()) == 0);
        assert(s.push(p)[0] == p);
    } else {
        assert(s.push(p).drop_first() =~= s.drop_first().push(p));
        assert(s.push(p)[0] == s[0]);
        lemma_flight_bytes_push(s.drop_first(), p);
    }
}

/// What a queue takes up depends on the lengths of its segments alone.
proof fn lemma_flight_bytes_by_len(a: Seq<PacketView>, b: Seq<PacketView>)
    requires
        a.len() == b.len(),
        forall|i: int| 0 <= i < a.len() ==> a[i].data_len == b[i].data_len,
    ensures
        flight_bytes(a) == flight_bytes(b),
    decreases a.len(),
{
    if a.len() > 0 {
        lemma_flight_bytes_by_len(a.drop_first(), b.drop_first());
    }
}

/// A queue takes up at least as much as what is left of it.
proof fn lemma_flight_bytes_skip(s: Seq<PacketView>, k: int)
    requires
        0 <= k <= s.len(),
    ensures
        0 <= flight_bytes(s.skip(k)) <= flight_bytes(s),
        k < s.len() ==> flight_bytes(s.skip(k)) == s[k].data_len + flight_bytes(s.skip(k + 1)),
    decreases s.len(),
{
    if k < s.len() {
        assert(s.skip(k).drop_first() =~= s.skip(k + 1));
    }
    if s.len() > 0 {
        if k > 0 {
            assert(s.drop_first().skip(k - 1) =~= s.skip(k));
            lemma_flight_bytes_skip(s.drop_first(), k - 1);
        } else {
            assert(s.skip(0) =~= s);
            lemma_flight_bytes_skip(s.drop_first(), 0);
            assert(s.drop_first().skip(0) =~= s.drop_first());
        }
    } else {
        assert(s.skip(0) =~= s);
    }
}

/// Bounds of the first segment that is not yet due.
proof fn lemma_due_until(s: Seq<PacketView>, now: u64, rto: u64, i: int)
    requires
        0 <= i <= s.len(),
    ensures
        i <= due_until(s, now, rto, i) <= s.len(),
        forall|j: int| i <= j < due_until(s, now, rto, i) ==> age(s[j].timestamp, now) >= rto,
    decreases s.len() - i,
{
    if i < s.len() && age(s[i].timestamp, now) >= rto {
        lemma_due_until(s, now, rto, i + 1);
    }
}

impl SenderView {
    /// What always holds of a sender: the congestion window is between 2
    /// and 42 segments, the round-trip estimate within its bounds and half
    /// the timeout, the bytes in flight the sum over the queue, and every
    /// waiting payload at most one segment long.
    pub open spec fn wf(self) -> bool {
        &&& 2 <= self.cwnd <= 42
        &&& self.count < 3
        &&& 5 <= self.rtt <= 900
        &&& self.rto == 2 * self.rtt
        &&& self.cur_wnd <= 60480
        &&& self.cur_buf == flight_bytes(self.in_flight)
        &&& self.cur_buf <= 60480
        &&& forall|i: int| 0 <= i < self.in_flight.len() ==> #[trigger] self.in_flight[i].data_len >= 1
        &&& forall|i: int| 0 <= i < self.data.len() ==> #[trigger] self.data[i].len() <= 1440
    }

    /// A sender that has done nothing yet, with `seq_num` as its first
    /// sequence number.
    pub open spec fn initial(remote_port: u16, local_port: u16, seq_num: u32) -> SenderView {
        SenderView {
            remote_port,
            local_port,
            status: Status::StandBy,
            seq_num,
            ack_num: 0,
            data: Seq::empty(),
            rto: 800,
            rtt: 400,
            in_flight: Seq::empty(),
            wnd_size: SENDER_WINDOW,
            cur_wnd: SENDER_WINDOW,
            ssthresh: 32,
            cwnd: 4,
            count: 0,
            cur_buf: 0,
            pre_ack: 0,
        }
    }

    /// The header of the next segment, with `flags`, before its digest is
    /// written in.
    pub open spec fn bare_header(self, flags: u8) -> HeaderView {
        HeaderView {
            source_port: self.local_port,
            destination_port: self.remote_port,
            sequence_number: self.seq_num,
            ack_number: self.ack_num,
            header_length: HEADER_WORDS,
            flags,
            window_size: self.wnd_size,
            hash_value: zero_digest(),
        }
    }

    /// The sequence numbers that a segment with `payload` takes up.
    pub open spec fn footprint(payload: Seq<u8>) -> int {
        if payload.len() == 0 {
            1
        } else {
            payload.len() as int
        }
    }

    /// The record of a segment transmitted at `now`.
    pub open spec fn packet(h: HeaderView, payload: Seq<u8>, now: u64) -> PacketView {
        PacketView {
            timestamp: now,
            data: h.encode() + payload,
            seq_num: h.sequence_number,
            ack_num: h.ack_number,
            confirm_ack: wrap_add(h.sequence_number, Self::footprint(payload)),
            data_len: Self::footprint(payload) as u16,
        }
    }

    /// The sender after the segment of `h` and `payload` went out at `now`:
    /// it is last in the queue, and the sequence number has moved past it.
    pub open spec fn registered(self, h: HeaderView, payload: Seq<u8>, now: u64) -> SenderView {
        SenderView {
            in_flight: self.in_flight.push(Self::packet(h, payload, now)),
            seq_num: wrap_add(h.sequence_number, Self::footprint(payload)),
            cur_buf: (self.cur_buf + Self::footprint(payload)) as u16,
            ..self
        }
    }

    /// The header of the next segment, with `flags`, digested with `payload`.
    pub open spec fn next_header(self, flags: u8, payload: Seq<u8>) -> HeaderView {
        self.bare_header(flags).sealed(payload)
    }

    /// The next segment on the wire, with `flags` and `payload`.
    pub open spec fn next_segment(self, flags: u8, payload: Seq<u8>) -> Seq<u8> {
        self.next_header(flags, payload).encode() + payload
    }

    /// The sender after its next segment, with `flags` and `payload`, went
    /// out at `now`.
    pub open spec fn emitted(self, flags: u8, payload: Seq<u8>, now: u64) -> SenderView {
        self.registered(self.next_header(flags, payload), payload, now)
    }

    /// The sender after input arrived: while it stands by, the input is cut
    /// into payloads and the handshake is next.
    pub open spec fn after_input(self, input: Seq<u8>) -> SenderView {
        if self.status == Status::StandBy {
            SenderView { data: chunks(input), status: Status::Handshake, ..self }
        } else {
            self
        }
    }

    /// Whether the opening segment is to go out: the handshake is on and
    /// nothing is in flight.
    pub open spec fn opens(self) -> bool {
        self.status == Status::Handshake && self.in_flight.len() == 0
    }

    /// The sender after the first `n` segments in flight were retired.
    pub open spec fn dropped(self, n: int) -> SenderView {
        SenderView {
            in_flight: self.in_flight.skip(n),
            cur_buf: flight_bytes(self.in_flight.skip(n)) as u16,
            ..self
        }
    }

    /// Whether `h` answers the opening segment: its digest is right, it
    /// acknowledges the segment at the head of the queue, and its flags are
    /// exactly SYN and ACK.
    pub open spec fn accepts_syn_ack(self, h: HeaderView) -> bool {
        &&& self.in_flight.len() > 0
        &&& h.verifies(Seq::empty())
        &&& h.ack_number == self.in_flight[0].confirm_ack
        &&& h.flags == FLAG_SYN_ACK
    }

    /// The sender once the peer has answered with `h`, before it completes
    /// the handshake: the threshold is the lesser advertised window in
    /// segments, the effective window follows the congestion window, the
    /// opening segment is retired, and the peer's sequence number is taken.
    pub open spec fn connected(self, h: HeaderView) -> SenderView {
        let lesser = if self.wnd_size < h.window_size {
            self.wnd_size
        } else {
            h.window_size
        };
        SenderView {
            ssthresh: lesser / 1440,
            cur_wnd: (self.cwnd * 1440) as u16,
            ack_num: wrap_add(h.sequence_number, 1),
            ..self.dropped(1)
        }
    }

    /// The sender after a segment with header `h` arrived during the
    /// handshake.
    pub open spec fn after_syn_ack(self, h: HeaderView, now: u64) -> SenderView {
        if self.accepts_syn_ack(h) {
            SenderView {
                status: Status::Sending,
                ..self.connected(h).emitted(FLAG_ACK, Seq::empty(), now)
            }
        } else {
            self
        }
    }

    /// What the sender transmits when a segment with header `h` arrives
    /// during the handshake.
    pub open spec fn syn_ack_answer(self, h: HeaderView) -> Option<Seq<u8>> {
        if self.accepts_syn_ack(h) {
            Some(self.connected(h).next_segment(FLAG_ACK, Seq::empty()))
        } else {
            None
        }
    }

    /// Whether `h` is an acknowledgement that the sender takes in while data
    /// flows: its digest is right and its flags are exactly ACK.
    pub open spec fn accepts_ack(self, h: HeaderView) -> bool {
        h.verifies(Seq::empty()) && h.flags == FLAG_ACK
    }

    /// Whether `h` is the third repetition of the last acknowledgement.
    pub open spec fn fast_retransmits(self, h: HeaderView) -> bool {
        h.ack_number == self.pre_ack && self.count >= 2
    }

    /// The sender after it has adjusted its pace to the acknowledgement `h`.
    /// A repetition is counted, and the third halves the congestion window.
    /// A new acknowledgement doubles the window up to the threshold and adds
    /// two segments beyond it. The window stays between 2 and 42 segments.
    pub open spec fn paced(self, h: HeaderView) -> SenderView {
        let repeated = h.ack_number == self.pre_ack;
        let raw: int = if repeated {
            if self.fast_retransmits(h) {
                (self.cwnd / 2) as int
            } else {
                self.cwnd as int
            }
        } else if self.cwnd > self.ssthresh {
            self.cwnd + 2
        } else {
            self.cwnd * 2
        };
        SenderView {
            count: if repeated && !self.fast_retransmits(h) {
                (self.count + 1) as u8
            } else {
                0
            },
            cwnd: clamp_cwnd(raw),
            cur_wnd: (clamp_cwnd(raw) * 1440) as u16,
            ..self
        }
    }

    /// The sender after the acknowledgement number `ack` retired what it
    /// covers: the first segment that it confirms and all before it. The
    /// time that this segment was under way is a round-trip sample.
    pub open spec fn retired(self, ack: u32, now: u64) -> SenderView {
        let i = confirm_from(self.in_flight, ack, 0);
        if i < self.in_flight.len() {
            let rtt = smoothed(self.rtt, age(self.in_flight[i].timestamp, now));
            SenderView { rtt, rto: (2 * rtt) as u64, pre_ack: ack, ..self.dropped(i + 1) }
        } else {
            self
        }
    }

    /// The sender after a segment with header `h` arrived while data flows.
    pub open spec fn after_ack(self, h: HeaderView, now: u64) -> SenderView {
        if self.accepts_ack(h) {
            self.paced(h).retired(h.ack_number, now)
        } else {
            self
        }
    }

    /// What the sender transmits when a segment with header `h` arrives
    /// while data flows: on the third repetition of an acknowledgement, the
    /// segment at the head of the queue once more.
    pub open spec fn ack_answer(self, h: HeaderView) -> Option<Seq<u8>> {
        if self.accepts_ack(h) && self.fast_retransmits(h) && self.in_flight.len() > 0 {
            Some(self.in_flight[0].data)
        } else {
            None
        }
    }

    /// Whether `h` acknowledges the closing segment.
    pub open spec fn accepts_fin_ack(self, h: HeaderView) -> bool {
        &&& self.in_flight.len() > 0
        &&& h.verifies(Seq::empty())
        &&& h.ack_number == self.in_flight[0].confirm_ack
    }

    /// The sender after a segment with header `h` arrived once it has closed.
    pub open spec fn after_fin_ack(self, h: HeaderView) -> SenderView {
        if self.accepts_fin_ack(h) {
            self.dropped(1)
        } else {
            self
        }
    }

    /// Whether the first waiting payload may go out: data flows, and the
    /// room left in the effective window is larger than the payload.
    pub open spec fn may_send(self) -> bool {
        &&& self.status == Status::Sending
        &&& self.data.len() > 0
        &&& self.cur_wnd - self.cur_buf > self.data[0].len()
    }

    /// The sender without its first waiting payload.
    pub open spec fn popped(self) -> SenderView {
        SenderView { data: self.data.drop_first(), ..self }
    }

    /// The sender after its first waiting payload went out at `now`.
    pub open spec fn sent_one(self, now: u64) -> SenderView {
        self.popped().emitted(FLAG_PSH_ACK, self.data[0], now)
    }

    /// The sender after it has sent, at `now`, all that the window admits.
    pub open spec fn after_pump(self, now: u64) -> SenderView
        decreases self.data.len(),
    {
        if self.may_send() {
            self.sent_one(now).after_pump(now)
        } else {
            self
        }
    }

    /// The segments that go out when the sender sends all that the window
    /// admits, in order.
    pub open spec fn pumped(self, now: u64) -> Seq<Seq<u8>>
        decreases self.data.len(),
    {
        if self.may_send() {
            seq![self.popped().next_segment(FLAG_PSH_ACK, self.data[0])] + self.sent_one(now).pumped(now)
        } else {
            Seq::empty()
        }
    }

    /// Whether all data has gone out and is acknowledged.
    pub open spec fn drained(self) -> bool {
        self.status == Status::Sending && self.data.len() == 0 && self.in_flight.len() == 0
    }

    /// The sender after it was asked to close at `now`: once drained, the
    /// closing segment goes out.
    pub open spec fn after_finish(self, now: u64) -> SenderView {
        if self.drained() {
            SenderView { status: Status::Finished, ..self.emitted(FLAG_FIN, Seq::empty(), now) }
        } else {
            self
        }
    }

    /// The sender after a datagram arrived at `now`. One too short for a
    /// header is dropped; any other is handled as the state demands.
    pub open spec fn after_datagram(self, datagram: Seq<u8>, now: u64) -> SenderView {
        if datagram.len() < 48 {
            self
        } else {
            match self.status {
                Status::StandBy => self,
                Status::Handshake => self.after_syn_ack(decoded(datagram), now),
                Status::Sending => self.after_ack(decoded(datagram), now),
                Status::Finished => self.after_fin_ack(decoded(datagram)),
            }
        }
    }

    /// What the sender transmits when a datagram arrives.
    pub open spec fn answer(self, datagram: Seq<u8>) -> Option<Seq<u8>> {
        if datagram.len() < 48 {
            None
        } else {
            match self.status {
                Status::StandBy => None,
                Status::Handshake => self.syn_ack_answer(decoded(datagram)),
                Status::Sending => self.ack_answer(decoded(datagram)),
                Status::Finished => None,
            }
        }
    }

    /// Whether the transfer is over: the closing segment is acknowledged.
    pub open spec fn done(self) -> bool {
        self.status == Status::Finished && self.in_flight.len() == 0
    }

    /// Where the queue of unacknowledged segments starts: the sequence
    /// number of its head, or the next sequence number where it is empty.
    pub open spec fn queue_start(self) -> u32 {
        if self.in_flight.len() > 0 {
            self.in_flight[0].seq_num
        } else {
            self.seq_num
        }
    }

    /// Whether the unacknowledged segments follow one another: each is
    /// retired by the acknowledgement of the position behind it, which is
    /// where the next one starts, or the next sequence number after the last.
    pub open spec fn in_sequence(self) -> bool {
        forall|i: int|
            0 <= i < self.in_flight.len() ==> {
                &&& (#[trigger] self.in_flight[i]).confirm_ack == wrap_add(
                    self.in_flight[i].seq_num,
                    self.in_flight[i].data_len as int,
                )
                &&& self.in_flight[i].confirm_ack == if i + 1 < self.in_flight.len() {
                    self.in_flight[i + 1].seq_num
                } else {
                    self.seq_num
                }
            }
    }

    /// Whether an unacknowledged segment awaits the acknowledgement `ack`.
    pub open spec fn awaits(self, ack: u32) -> bool {
        confirm_from(self.in_flight, ack, 0) < self.in_flight.len()
    }

    /// How many segments one sweep retransmits: those at the head of the
    /// queue that are due, but no more than half the congestion window.
    pub open spec fn resend_count(self, now: u64) -> int {
        let due = due_until(self.in_flight, now, self.rto, 0);
        if due < self.cwnd / 2 {
            due
        } else {
            (self.cwnd / 2) as int
        }
    }

    /// The sender after a sweep at `now`: the retransmitted segments carry
    /// the new time, and if there is one the threshold is half the window.
    pub open spec fn after_sweep(self, now: u64) -> SenderView {
        let k = self.resend_count(now);
        SenderView {
            in_flight: Seq::new(
                self.in_flight.len(),
                |i: int|
                    if i < k {
                        PacketView { timestamp: now, ..self.in_flight[i] }
                    } else {
                        self.in_flight[i]
                    },
            ),
            ssthresh: if k > 0 {
                self.cwnd / 2
            } else {
                self.ssthresh
            },
            ..self
        }
    }

    /// The segments that a sweep at `now` retransmits, in order.
    pub open spec fn swept(self, now: u64) -> Seq<Seq<u8>> {
        Seq::new(self.resend_count(now) as nat, |i: int| self.in_flight[i].data)
    }
}

/// Where the first segment is that an acknowledgement retires.
proof fn lemma_confirm_from(s: Seq<PacketView>, ack: u32, i: int)
    requires
        0 <= i <= s.len(),
    ensures
        i <= confirm_from(s, ack, i) <= s.len(),
        confirm_from(s, ack, i) < s.len() ==> s[confirm_from(s, ack, i)].confirm_ack == ack,
    decreases s.len() - i,
{
    if i < s.len() && s[i].confirm_ack != ack {
        lemma_confirm_from(s, ack, i + 1);
    }
}

/// A number that is `b` ahead of one that is `a` ahead is `a + b` ahead.
proof fn lemma_step_ahead(start: u32, seq: u32, confirm: u32, a: int, b: int)
    requires
        0 <= a,
        0 <= b,
        seq == wrap_add(start, a),
        confirm == wrap_add(seq, b),
    ensures
        confirm == wrap_add(start, a + b),
{
    lemma_wrap_add_add(start, a, b);
}

/// In a queue whose segments follow one another, the acknowledgement that
/// retires segment `i` is ahead of the start of the queue by what the
/// segments up to it take up.
proof fn lemma_confirm_is_ahead(s: SenderView, i: int)
    requires
        s.in_sequence(),
        0 <= i < s.in_flight.len(),
    ensures
        0 <= flight_bytes(s.in_flight.skip(i + 1)) <= flight_bytes(s.in_flight),
        s.in_flight[i].confirm_ack == wrap_add(
            s.queue_start(),
            flight_bytes(s.in_flight) - flight_bytes(s.in_flight.skip(i + 1)),
        ),
    decreases i,
{
    let queue = s.in_flight;
    let all = flight_bytes(queue);
    let from = flight_bytes(queue.skip(i));
    let behind = flight_bytes(queue.skip(i + 1));
    let start = s.queue_start();
    let this = queue[i];
    assert(this.confirm_ack == wrap_add(this.seq_num, this.data_len as int));
    assert(0 <= from <= all && 0 <= behind <= all && from == this.data_len + behind) by {
        lemma_flight_bytes_skip(queue, i);
        lemma_flight_bytes_skip(queue, i + 1);
    }
    if i == 0 {
        assert(from == all) by {
            assert(queue.skip(0) =~= queue);
        }
        assert(this.seq_num == wrap_add(start, 0));
        lemma_step_ahead(start, this.seq_num, this.confirm_ack, 0, this.data_len as int);
    } else {
        lemma_confirm_is_ahead(s, i - 1);
        let last = queue[i - 1];
        assert(last.confirm_ack == this.seq_num);
        lemma_step_ahead(start, this.seq_num, this.confirm_ack, all - from, this.data_len as int);
    }
}

/// The order of the queue is kept by what a sender does to it: by a
/// segment that goes out, by a sweep, and by the retirement of segments at
/// its head. The first two also leave the start of the queue where it is.
pub proof fn lemma_sequence_kept(s: SenderView, flags: u8, payload: Seq<u8>, now: u64, n: int)
    requires
        s.in_sequence(),
        payload.len() <= MAX_PAYLOAD,
        0 <= n <= s.in_flight.len(),
    ensures
        s.emitted(flags, payload, now).in_sequence(),
        s.emitted(flags, payload, now).queue_start() == s.queue_start(),
        s.after_sweep(now).in_sequence(),
        s.after_sweep(now).queue_start() == s.queue_start(),
        s.dropped(n).in_sequence(),
        n > 0 ==> s.dropped(n).queue_start() == s.in_flight[n - 1].confirm_ack,
{
    let e = s.emitted(flags, payload, now);
    assert forall|i: int| 0 <= i < e.in_flight.len() implies {
        &&& (#[trigger] e.in_flight[i]).confirm_ack == wrap_add(
            e.in_flight[i].seq_num,
            e.in_flight[i].data_len as int,
        )
        &&& e.in_flight[i].confirm_ack == if i + 1 < e.in_flight.len() {
            e.in_flight[i + 1].seq_num
        } else {
            e.seq_num
        }
    } by {
        if i < s.in_flight.len() {
            assert(e.in_flight[i] == s.in_flight[i]);
        }
    }
    let d = s.dropped(n);
    assert forall|i: int| 0 <= i < d.in_flight.len() implies {
        &&& (#[trigger] d.in_flight[i]).confirm_ack == wrap_add(
            d.in_flight[i].seq_num,
            d.in_flight[i].data_len as int,
        )
        &&& d.in_flight[i].confirm_ack == if i + 1 < d.in_flight.len() {
            d.in_flight[i + 1].seq_num
        } else {
            d.seq_num
        }
    } by {
        assert(d.in_flight[i] == s.in_flight[n + i]);
    }
    if n > 0 {
        assert(s.in_flight[n - 1].confirm_ack == d.queue_start());
    }
    let w = s.after_sweep(now);
    assert forall|i: int| 0 <= i < w.in_flight.len() implies {
        &&& (#[trigger] w.in_flight[i]).confirm_ack == wrap_add(
            w.in_flight[i].seq_num,
            w.in_flight[i].data_len as int,
        )
        &&& w.in_flight[i].confirm_ack == if i + 1 < w.in_flight.len() {
            w.in_flight[i + 1].seq_num
        } else {
            w.seq_num
        }
    } by {
        assert(w.in_flight[i].confirm_ack == s.in_flight[i].confirm_ack);
    }
}

/// Sending all that the window admits keeps the order of the queue and
/// leaves its start and the last acknowledgement where they are.
proof fn lemma_pump_keeps_sequence(s: SenderView, now: u64)
    requires
        s.in_sequence(),
        forall|i: int| 0 <= i < s.data.len() ==> (#[trigger] s.data[i]).len() <= 1440,
    ensures
        s.after_pump(now).in_sequence(),
        s.after_pump(now).queue_start() == s.queue_start(),
        s.after_pump(now).pre_ack == s.pre_ack,
    decreases s.data.len(),
{
    if s.may_send() {
        let popped = s.popped();
        assert(popped.in_sequence());
        lemma_sequence_kept(popped, FLAG_PSH_ACK, s.data[0], now, 0);
        let next = s.sent_one(now);
        assert forall|i: int| 0 <= i < next.data.len() implies (#[trigger] next.data[i]).len()
            <= 1440 by {
            assert(next.data[i] == s.data[i + 1]);
        }
        lemma_pump_keeps_sequence(next, now);
    }
}

/// Between acknowledgements the last acknowledgement stands, and the queue
/// keeps its order and its start: neither a sweep, nor sending what the
/// window admits, nor the closing segment changes them.
pub proof fn lemma_sending_keeps_sequence(s: SenderView, now: u64)
    requires
        s.wf(),
        s.in_sequence(),
    ensures
        s.after_sweep(now).in_sequence(),
        s.after_sweep(now).queue_start() == s.queue_start(),
        s.after_sweep(now).pre_ack == s.pre_ack,
        s.after_pump(now).in_sequence(),
        s.after_pump(now).queue_start() == s.queue_start(),
        s.after_pump(now).pre_ack == s.pre_ack,
        s.after_finish(now).in_sequence(),
        s.after_finish(now).queue_start() == s.queue_start(),
        s.after_finish(now).pre_ack == s.pre_ack,
{
    lemma_sequence_kept(s, FLAG_FIN, Seq::empty(), now, 0);
    lemma_pump_keeps_sequence(s, now);
    if s.drained() {
        let sent = s.emitted(FLAG_FIN, Seq::empty(), now);
        assert(s.after_finish(now).in_flight == sent.in_flight);
        assert(s.after_finish(now).seq_num == sent.seq_num);
    }
}

/// The last acknowledgement is one that was awaited. An acknowledgement
/// that no unacknowledged segment awaits leaves the queue, the bytes in
/// flight and the last acknowledgement as they were. One that is awaited
/// becomes the last acknowledgement, and the queue then starts there.
pub proof fn lemma_last_ack_is_awaited(s: SenderView, h: HeaderView, now: u64)
    requires
        s.wf(),
        s.in_sequence(),
    ensures
        s.after_ack(h, now).in_sequence(),
        s.accepts_ack(h) && s.awaits(h.ack_number) ==> {
            &&& s.after_ack(h, now).pre_ack == h.ack_number
            &&& s.after_ack(h, now).pre_ack == s.after_ack(h, now).queue_start()
        },
        s.accepts_ack(h) && s.awaits(h.ack_number) ==> {
            &&& s.after_ack(h, now).pre_ack == s.in_flight[confirm_from(
                s.in_flight,
                h.ack_number,
                0,
            )].confirm_ack
            &&& s.after_ack(h, now).cur_buf == flight_bytes(
                s.in_flight.skip(confirm_from(s.in_flight, h.ack_number, 0) + 1),
            )
        },
        !(s.accepts_ack(h) && s.awaits(h.ack_number)) ==> {
            &&& s.after_ack(h, now).in_flight == s.in_flight
            &&& s.after_ack(h, now).cur_buf == s.cur_buf
            &&& s.after_ack(h, now).pre_ack == s.pre_ack
        },
{
    lemma_confirm_from(s.in_flight, h.ack_number, 0);
    let i = confirm_from(s.in_flight, h.ack_number, 0);
    if s.accepts_ack(h) && i < s.in_flight.len() {
        let paced = s.paced(h);
        assert(paced.in_sequence());
        lemma_sequence_kept(paced, 0, Seq::empty(), now, i + 1);
        assert(s.after_ack(h, now).in_flight == paced.dropped(i + 1).in_flight);
        assert(s.after_ack(h, now).seq_num == paced.dropped(i + 1).seq_num);
        lemma_flight_bytes_skip(s.in_flight, i + 1);
    }
}

/// The acknowledgement that retires segment `i` of a queue that starts at
/// the last acknowledgement is ahead of it by what it retires.
proof fn lemma_retiring_is_ahead(s: SenderView, i: int)
    requires
        s.wf(),
        s.in_sequence(),
        s.pre_ack == s.queue_start(),
        0 <= i < s.in_flight.len(),
    ensures
        0 <= s.cur_buf - flight_bytes(s.in_flight.skip(i + 1)) <= MAX_WINDOW,
        ahead_by(s.pre_ack, s.in_flight[i].confirm_ack) == s.cur_buf - flight_bytes(
            s.in_flight.skip(i + 1),
        ),
{
    lemma_confirm_is_ahead(s, i);
    lemma_ahead_by_wrap_add(
        s.pre_ack,
        flight_bytes(s.in_flight) - flight_bytes(s.in_flight.skip(i + 1)),
    );
}

/// The last acknowledgement never retreats. While the queue starts at the
/// last acknowledgement, as it does from the first retirement on, an
/// acknowledgement puts the last acknowledgement ahead by exactly what it
/// retires, which is at most the largest window and so less than half the
/// ring; and the queue starts at the last acknowledgement again.
pub proof fn lemma_last_ack_never_retreats(s: SenderView, h: HeaderView, now: u64)
    requires
        s.wf(),
        s.in_sequence(),
        s.pre_ack == s.queue_start(),
    ensures
        s.after_ack(h, now).in_sequence(),
        s.after_ack(h, now).pre_ack == s.after_ack(h, now).queue_start(),
        ahead_by(s.pre_ack, s.after_ack(h, now).pre_ack) == s.cur_buf - s.after_ack(
            h,
            now,
        ).cur_buf,
        0 <= s.cur_buf - s.after_ack(h, now).cur_buf <= MAX_WINDOW,
{
    lemma_last_ack_is_awaited(s, h, now);
    lemma_confirm_from(s.in_flight, h.ack_number, 0);
    if s.accepts_ack(h) && s.awaits(h.ack_number) {
        lemma_retiring_is_ahead(s, confirm_from(s.in_flight, h.ack_number, 0));
    } else {
        lemma_ahead_by_wrap_add(s.pre_ack, 0);
    }
}

/// The congestion window is bounded: whatever the sender's state and
/// whatever the acknowledgement, the window is between 2 and 42 segments
/// afterwards, the effective window is that many segments, and a sender
/// that was well-formed stays so.
pub proof fn lemma_window_bounded(s: SenderView, h: HeaderView)
    ensures
        2 <= s.paced(h).cwnd <= 42,
        s.paced(h).cur_wnd == s.paced(h).cwnd * 1440,
        s.wf() ==> s.paced(h).wf(),
{
}

/// Retransmission is never late: a sweep of a well-formed sender at a time
/// when the segment at the head of the queue is due retransmits that
/// segment. So a sender that sweeps at least once in every timeout
/// retransmits a lost head before two timeouts have passed.
pub proof fn lemma_due_head_is_retransmitted(s: SenderView, now: u64)
    requires
        s.wf(),
        s.in_flight.len() > 0,
        age(s.in_flight[0].timestamp, now) >= s.rto,
    ensures
        s.resend_count(now) >= 1,
        s.swept(now)[0] == s.in_flight[0].data,
        s.after_sweep(now).in_flight[0].timestamp == now,
{
    lemma_due_until(s.in_flight, now, s.rto, 1);
}

/// Retransmission is never early: every segment that a sweep retransmits
/// was last transmitted at least one timeout ago.
pub proof fn lemma_retransmitted_are_due(s: SenderView, now: u64, i: int)
    requires
        0 <= i < s.resend_count(now),
    ensures
        i < s.in_flight.len(),
        age(s.in_flight[i].timestamp, now) >= s.rto,
        s.swept(now)[i] == s.in_flight[i].data,
        s.after_sweep(now).in_flight[i].timestamp == now,
{
    lemma_due_until(s.in_flight, now, s.rto, 0);
}

/// The time since `timestamp`, or zero where the clock ran backwards.
pub fn elapsed(timestamp: u64, now: u64) -> (time: u64)
    ensures
        time == age(timestamp, now),
{
    if now >= timestamp {
        now - timestamp
    } else {
        0
    }
}

impl Sender {
    /// A sender from `local_port` to `remote_port` with a random first
    /// sequence number.
    pub fn new(remote_port: u16, local_port: u16) -> (sender: Self)
        ensures
            sender@ == SenderView::initial(remote_port, local_port, sender.seq_num),
            sender@.wf(),
    {
        Self::with_sequence(remote_port, local_port, random_sequence_number())
    }

    /// A sender from `local_port` to `remote_port` whose first sequence
    /// number is `seq_num`.
    pub fn with_sequence(remote_port: u16, local_port: u16, seq_num: u32) -> (sender: Self)
        ensures
            sender@ == SenderView::initial(remote_port, local_port, seq_num),
            sender@.wf(),
    {
        let sender = Sender {
            remote_port,
            local_port,
            status: Status::StandBy,
            seq_num,
            ack_num: 0,
            data: VecDeque::new(),
            rto: 800,
            rtt: 400,
            in_flight: VecDeque::new(),
            wnd_size: SENDER_WINDOW,
            cur_wnd: SENDER_WINDOW,
            ssthresh: 32,
            cwnd: 4,
            count: 0,
            cur_buf: 0,
            pre_ack: 0,
        };
        assert(sender@.data =~= Seq::empty());
        assert(sender@.in_flight =~= Seq::empty());
        sender
    }

    /// Folds a round-trip sample into the estimate and sets the timeout to
    /// twice the estimate.
    pub fn update_rto(&mut self, sample: u64)
        ensures
            final(self)@ == (SenderView {
                rtt: smoothed(old(self).rtt, sample as int),
                rto: (2 * smoothed(old(self).rtt, sample as int)) as u64,
                ..old(self)@
            }),
    {
        let raw: u128 = (self.rtt as u128) * 85 / 100 + (sample as u128) * 15 / 100;
        if raw < 5 {
            self.rtt = MIN_RTT;
        } else if raw > 900 {
            self.rtt = MAX_RTT;
        } else {
            self.rtt = raw as u64;
        }
        self.rto = self.rtt * 2;
    }

    /// The place in the queue of the first segment that `ack_num` retires.
    pub fn find_packet_index(in_flight: &VecDeque<Packet>, ack_num: u32) -> (found: Result<usize, ()>)
        ensures
            match found {
                Ok(i) => i < in_flight@.len() && i == confirm_from(
                    packet_views(in_flight@),
                    ack_num,
                    0,
                ),
                Err(_) => confirm_from(packet_views(in_flight@), ack_num, 0) == in_flight@.len(),
            },
    {
        let ghost s = packet_views(in_flight@);
        let mut i: usize = 0;
        while i < in_flight.len()
            invariant
                0 <= i <= in_flight@.len(),
                s == packet_views(in_flight@),
                confirm_from(s, ack_num, 0) == confirm_from(s, ack_num, i as int),
            decreases in_flight@.len() - i,
        {
            if in_flight[i].confirm_ack == ack_num {
                return Ok(i);
            }
            i += 1;
        }
        Err(())
    }

    /// Records a segment as transmitted at `now` and gives its bytes: the
    /// header, then `data`. The segment joins the queue of unacknowledged
    /// segments, and the sequence number moves past it.
    pub fn register_packet(&mut self, header: TcpHeader, data: &[u8], now: u64) -> (segment: Vec<u8>)
        requires
            old(self)@.wf(),
            data@.len() <= MAX_PAYLOAD,
            old(self).cur_buf + SenderView::footprint(data@) <= MAX_WINDOW,
        ensures
            final(self)@ == old(self)@.registered(header@, data@, now),
            final(self)@.wf(),
            segment@ == header@.encode() + data@,
    {
        let mut segment = header.as_bytes();
        segment.extend_from_slice(data);
        let data_len: u16 = if data.len() == 0 {
            1
        } else {
            data.len() as u16
        };
        let confirm_ack = safe_increment(header.sequence_number, data_len as u32);
        let packet = Packet {
            timestamp: now,
            data: vstd::slice::slice_to_vec(segment.as_slice()),
            seq_num: header.sequence_number,
            ack_num: header.ack_number,
            confirm_ack,
            data_len,
        };
        assert(packet@.data == header@.encode() + data@);
        assert(packet@ == SenderView::packet(header@, data@, now));
        self.in_flight.push_back(packet);
        self.seq_num = confirm_ack;
        self.cur_buf = self.cur_buf + data_len;
        proof {
            lemma_flight_bytes_push(old(self)@.in_flight, SenderView::packet(header@, data@, now));
            assert(self@.in_flight =~= old(self)@.in_flight.push(
                SenderView::packet(header@, data@, now),
            ));
            assert(self@.data =~= old(self)@.data);
        }
        segment
    }

    /// Retransmits what is due at `now`: the segments at the head of the
    /// queue whose last transmission is at least one timeout old, up to half
    /// the congestion window of them. They get `now` as their time, and the
    /// threshold drops to half the window if there is one.
    pub fn check_retransmission(&mut self, now: u64) -> (segments: Vec<Vec<u8>>)
        requires
            old(self)@.wf(),
        ensures
            final(self)@ == old(self)@.after_sweep(now),
            final(self)@.wf(),
            views(segments@) == old(self)@.swept(now),
    {
        let mut segments: Vec<Vec<u8>> = Vec::new();
        let limit: usize = (self.cwnd / 2) as usize;
        let mut i: usize = 0;
        proof {
            lemma_due_until(old(self)@.in_flight, now, old(self).rto, 0);
        }
        while i < self.in_flight.len() && i < limit && elapsed(self.in_flight[i].timestamp, now)
            >= self.rto
            invariant
                0 <= i <= self.in_flight@.len(),
                i <= limit,
                limit == old(self).cwnd / 2,
                self.in_flight@.len() == old(self).in_flight@.len(),
                forall|j: int| 0 <= j < i ==> (#[trigger] self.in_flight@[j])@ == (PacketView {
                    timestamp: now,
                    ..old(self).in_flight@[j]@
                }),
                forall|j: int| i <= j < self.in_flight@.len() ==> (#[trigger] self.in_flight@[j])@ == old(self).in_flight@[j]@,
                due_until(old(self)@.in_flight, now, old(self).rto, 0) == due_until(
                    old(self)@.in_flight,
                    now,
                    old(self).rto,
                    i as int,
                ),
                self@ == (SenderView {
                    in_flight: self@.in_flight,
                    ssthresh: self@.ssthresh,
                    ..old(self)@
                }),
                self.ssthresh == (if i > 0 {
                    old(self).cwnd / 2
                } else {
                    old(self).ssthresh
                }),
                segments@.len() == i,
                forall|j: int| 0 <= j < i ==> (#[trigger] segments@[j])@ == old(self).in_flight@[j]@.data,
            decreases self.in_flight@.len() - i,
        {
            segments.push(vstd::slice::slice_to_vec(self.in_flight[i].data.as_slice()));
            let ghost queue = self.in_flight@;
            match self.in_flight.remove(i) {
                Some(mut packet) => {
                    packet.timestamp = now;
                    self.in_flight.insert(i, packet);
                    assert(self.in_flight@ =~= queue.update(i as int, packet));
                },
                None => {},
            }
            self.ssthresh = self.cwnd / 2;
            i += 1;
            assert(self@.data =~= old(self)@.data);
        }
        proof {
            lemma_due_until(old(self)@.in_flight, now, old(self).rto, i as int);
            assert(i == old(self)@.resend_count(now));
            assert(self@.in_flight =~= old(self)@.after_sweep(now).in_flight);
            assert(views(segments@) =~= old(self)@.swept(now));
            lemma_flight_bytes_by_len(self@.in_flight, old(self)@.in_flight);
        }
        segments
    }

    /// Builds the next segment, with `flags` and `payload`, writes its
    /// digest in, and records it as transmitted at `now`.
    pub fn emit(&mut self, flags: u8, payload: &[u8], now: u64) -> (segment: Vec<u8>)
        requires
            old(self)@.wf(),
            payload@.len() <= MAX_PAYLOAD,
            old(self).cur_buf + SenderView::footprint(payload@) <= MAX_WINDOW,
        ensures
            final(self)@ == old(self)@.emitted(flags, payload@, now),
            final(self)@.wf(),
            segment@ == old(self)@.next_segment(flags, payload@),
    {
        let header = TcpHeader {
            source_port: self.local_port,
            destination_port: self.remote_port,
            sequence_number: self.seq_num,
            ack_number: self.ack_num,
            header_length: HEADER_WORDS,
            flags,
            window_size: self.wnd_size,
            hash_value: [0u8; 32],
        };
        assert(header.hash_value@ =~= zero_digest());
        let sealed = header.seal(payload);
        self.register_packet(sealed, payload, now)
    }

    /// Takes the input in: while the sender stands by, the input is cut
    /// into payloads of at most 1440 bytes, and the handshake is next.
    pub fn load_input(&mut self, input: &[u8])
        requires
            old(self)@.wf(),
        ensures
            final(self)@ == old(self)@.after_input(input@),
            final(self)@.wf(),
    {
        match self.status {
            Status::StandBy => {},
            _ => {
                return ;
            },
        }
        let mut queue: VecDeque<Vec<u8>> = VecDeque::new();
        let mut start: usize = 0;
        while start < input.len()
            invariant
                0 <= start <= input@.len(),
                start == queue@.len() * 1440 || start == input@.len(),
                queue@.len() <= (input@.len() + 1439) / 1440,
                queue@.len() > 0 ==> (queue@.len() - 1) * 1440 < input@.len(),
                start == input@.len() ==> queue@.len() * 1440 >= input@.len(),
                forall|j: int| 0 <= j < queue@.len() ==> (#[trigger] queue@[j])@ == chunk(input@, j),
            decreases input@.len() - start,
        {
            let end: usize = if input.len() - start > SEGMENT_SIZE {
                start + SEGMENT_SIZE
            } else {
                input.len()
            };
            let piece = vstd::slice::slice_to_vec(vstd::slice::slice_subrange(input, start, end));
            queue.push_back(piece);
            start = end;
        }
        self.data = queue;
        self.status = Status::Handshake;
        assert(self@.data =~= chunks(input@));
        assert(self@.in_flight =~= old(self)@.in_flight);
    }

    /// Opens the connection: when the handshake is on and nothing is in
    /// flight, the opening segment goes out.
    pub fn start_handshake(&mut self, now: u64) -> (segment: Option<Vec<u8>>)
        requires
            old(self)@.wf(),
        ensures
            final(self)@ == (if old(self)@.opens() {
                old(self)@.emitted(FLAG_SYN, Seq::empty(), now)
            } else {
                old(self)@
            }),
            view_of(segment) == (if old(self)@.opens() {
                Some(old(self)@.next_segment(FLAG_SYN, Seq::empty()))
            } else {
                None
            }),
            final(self)@.wf(),
    {
        let opening = match self.status {
            Status::Handshake => self.in_flight.len() == 0,
            _ => false,
        };
        if !opening {
            return None;
        }
        let none: [u8; 0] = [];
        assert(none@ =~= Seq::<u8>::empty());
        Some(self.emit(FLAG_SYN, none.as_slice(), now))
    }

    /// Retires the first `count` segments in flight and gives the time at
    /// which the last of them went out.
    pub fn retire(&mut self, count: usize) -> (sent: u64)
        requires
            old(self)@.wf(),
            1 <= count <= old(self)@.in_flight.len(),
        ensures
            final(self)@ == old(self)@.dropped(count as int),
            final(self)@.wf(),
            sent == old(self)@.in_flight[count - 1].timestamp,
            final(self).cur_buf + old(self)@.in_flight[0].data_len <= old(self).cur_buf,
    {
        let ghost queue = self@.in_flight;
        let mut sent: u64 = 0;
        let mut k: usize = 0;
        proof {
            assert(queue.skip(0) =~= queue);
            lemma_flight_bytes_skip(queue, 1);
            lemma_flight_bytes_skip(queue, 0);
        }
        while k < count
            invariant
                0 <= k <= count <= queue.len(),
                queue == old(self)@.in_flight,
                old(self)@.wf(),
                self@ == old(self)@.dropped(k as int),
                k > 0 ==> sent == queue[k - 1].timestamp,
                k > 0 ==> self.cur_buf <= flight_bytes(queue.skip(1)),
            decreases count - k,
        {
            proof {
                lemma_flight_bytes_skip(queue, k as int);
                lemma_flight_bytes_skip(queue, k as int + 1);
                lemma_flight_bytes_skip(queue.skip(1), k as int);
                assert(queue.skip(1).skip(k as int) =~= queue.skip(k as int + 1));
            }
            let ghost before = self.in_flight@;
            assert(before[0]@ == self@.in_flight[0]);
            match self.in_flight.pop_front() {
                Some(packet) => {
                    sent = packet.timestamp;
                    self.cur_buf = self.cur_buf - packet.data_len;
                },
                None => {},
            }
            k += 1;
            assert forall|j: int| 0 <= j < self.in_flight@.len() implies (#[trigger] self.in_flight@[j])@
                == queue[k + j] by {
                assert(self.in_flight@[j] == before[j + 1]);
                assert(before[j + 1]@ == queue.skip(k - 1)[j + 1]);
            }
            assert(self@.in_flight =~= queue.skip(k as int));
            assert(self@.data =~= old(self)@.data);
        }
        proof {
            lemma_flight_bytes_skip(queue, count as int);
            assert forall|i: int| 0 <= i < self@.in_flight.len() implies #[trigger] self@.in_flight[i].data_len
                >= 1 by {
                assert(self@.in_flight[i] == queue[count + i]);
            }
        }
        sent
    }

    /// Handles a segment that arrives during the handshake. The peer's
    /// answer to the opening segment completes the handshake: the opening
    /// segment is retired, a bare acknowledgement goes out, and data flows.
    /// Anything else is dropped.
    pub fn on_syn_ack(&mut self, header: &TcpHeader, now: u64) -> (segment: Option<Vec<u8>>)
        requires
            old(self)@.wf(),
        ensures
            final(self)@ == old(self)@.after_syn_ack(header@, now),
            view_of(segment) == old(self)@.syn_ack_answer(header@),
            final(self)@.wf(),
    {
        let none: [u8; 0] = [];
        assert(none@ =~= Seq::<u8>::empty());
        if !(self.in_flight.len() > 0 && header.verify(none.as_slice()) && header.ack_number
            == self.in_flight[0].confirm_ack && header.flags == FLAG_SYN_ACK) {
            return None;
        }
        let lesser: u16 = if self.wnd_size < header.window_size {
            self.wnd_size
        } else {
            header.window_size
        };
        self.ssthresh = lesser / 1440;
        self.cur_wnd = self.cwnd * 1440;
        self.retire(1);
        self.ack_num = safe_increment(header.sequence_number, 1);
        assert(self@ == old(self)@.connected(header@));
        let segment = self.emit(FLAG_ACK, none.as_slice(), now);
        self.status = Status::Sending;
        Some(segment)
    }

    /// Adjusts the pace to an acknowledgement and says whether it is the
    /// third repetition.
    pub fn pace(&mut self, header: &TcpHeader) -> (fast: bool)
        requires
            old(self)@.wf(),
        ensures
            final(self)@ == old(self)@.paced(header@),
            final(self)@.wf(),
            fast == old(self)@.fast_retransmits(header@),
    {
        let mut fast = false;
        if header.ack_number == self.pre_ack {
            self.count += 1;
            if self.count >= 3 {
                fast = true;
                self.cwnd = self.cwnd / 2;
                self.count = 0;
            }
        } else {
            self.count = 0;
            if self.cwnd > self.ssthresh {
                self.cwnd += 2;
            } else {
                self.cwnd = self.cwnd * 2;
            }
        }
        if self.cwnd >= MAX_CWND {
            self.cwnd = MAX_CWND;
        } else if self.cwnd < MIN_CWND {
            self.cwnd = MIN_CWND;
        }
        self.cur_wnd = self.cwnd * 1440;
        fast
    }

    /// Handles a segment that arrives while data flows. An acknowledgement
    /// with a right digest sets the pace, retires what it covers, and on its
    /// third repetition draws the head of the queue once more. Anything else
    /// is dropped.
    pub fn on_ack(&mut self, header: &TcpHeader, now: u64) -> (segment: Option<Vec<u8>>)
        requires
            old(self)@.wf(),
        ensures
            final(self)@ == old(self)@.after_ack(header@, now),
            view_of(segment) == old(self)@.ack_answer(header@),
            final(self)@.wf(),
    {
        let none: [u8; 0] = [];
        assert(none@ =~= Seq::<u8>::empty());
        if !(header.flags == FLAG_ACK && header.verify(none.as_slice())) {
            return None;
        }
        let mut segment: Option<Vec<u8>> = None;
        let fast = self.pace(header);
        if fast && self.in_flight.len() > 0 {
            segment = Some(vstd::slice::slice_to_vec(self.in_flight[0].data.as_slice()));
        }
        let ghost paced = self@;
        let queued: usize = self.in_flight.len();
        match Self::find_packet_index(&self.in_flight, header.ack_number) {
            Ok(index) => {
                assert(index < queued);
                let sent = self.retire(index + 1);
                self.update_rto(elapsed(sent, now));
                self.pre_ack = header.ack_number;
                assert(self@ == paced.retired(header.ack_number, now));
            },
            Err(_) => {
                assert(self@ == paced.retired(header.ack_number, now));
            },
        }
        segment
    }

    /// Handles a segment that arrives after the closing segment went out:
    /// one with a right digest that acknowledges the closing segment
    /// retires it.
    pub fn on_fin_ack(&mut self, header: &TcpHeader)
        requires
            old(self)@.wf(),
        ensures
            final(self)@ == old(self)@.after_fin_ack(header@),
            final(self)@.wf(),
    {
        let none: [u8; 0] = [];
        assert(none@ =~= Seq::<u8>::empty());
        if self.in_flight.len() > 0 && header.verify(none.as_slice()) && header.ack_number
            == self.in_flight[0].confirm_ack {
            self.retire(1);
        }
    }

    /// Handles one received datagram at `now` and gives the segment to
    /// transmit in answer, if any.
    pub fn on_datagram(&mut self, datagram: &[u8], now: u64) -> (segment: Option<Vec<u8>>)
        requires
            old(self)@.wf(),
        ensures
            final(self)@ == old(self)@.after_datagram(datagram@, now),
            view_of(segment) == old(self)@.answer(datagram@),
            final(self)@.wf(),
    {
        if datagram.len() < HEADER_LEN {
            return None;
        }
        let header = TcpHeader::new(datagram);
        match self.status {
            Status::StandBy => None,
            Status::Handshake => self.on_syn_ack(&header, now),
            Status::Sending => self.on_ack(&header, now),
            Status::Finished => {
                self.on_fin_ack(&header);
                None
            },
        }
    }

    /// Sends, at `now`, all that the window admits: while data flows, the
    /// waiting payloads go out in order for as long as the room left in the
    /// effective window is larger than the next one.
    pub fn send_pending(&mut self, now: u64) -> (segments: Vec<Vec<u8>>)
        requires
            old(self)@.wf(),
        ensures
            final(self)@ == old(self)@.after_pump(now),
            views(segments@) == old(self)@.pumped(now),
            final(self)@.wf(),
    {
        let mut segments: Vec<Vec<u8>> = Vec::new();
        assert(views(segments@) + self@.pumped(now) =~= old(self)@.pumped(now));
        while self.can_send()
            invariant
                self@.wf(),
                self@.after_pump(now) == old(self)@.after_pump(now),
                views(segments@) + self@.pumped(now) == old(self)@.pumped(now),
            decreases self.data@.len(),
        {
            let ghost before = self@;
            let ghost so_far = views(segments@);
            let popped = self.data.pop_front();
            match popped {
                Some(payload) => {
                    assert(self@.data =~= before.data.drop_first());
                    assert(self@.in_flight =~= before.in_flight);
                    assert(self@ == before.popped());
                    let segment = self.emit(FLAG_PSH_ACK, payload.as_slice(), now);
                    segments.push(segment);
                    assert(self@ == before.sent_one(now));
                    assert(views(segments@) =~= so_far + seq![
                        before.popped().next_segment(FLAG_PSH_ACK, before.data[0]),
                    ]);
                    assert(views(segments@) + self@.pumped(now) =~= so_far + before.pumped(now));
                },
                None => {},
            }
        }
        assert(views(segments@) + self@.pumped(now) =~= views(segments@));
        segments
    }

    /// Whether the first waiting payload may go out.
    pub fn can_send(&self) -> (may: bool)
        ensures
            may == self@.may_send(),
    {
        match self.status {
            Status::Sending => self.data.len() > 0 && self.cur_wnd > self.cur_buf && (self.cur_wnd
                - self.cur_buf) as usize > self.data[0].len(),
            _ => false,
        }
    }

    /// Closes the connection at `now`: once all data has gone out and is
    /// acknowledged, the closing segment goes out.
    pub fn finish(&mut self, now: u64) -> (segment: Option<Vec<u8>>)
        requires
            old(self)@.wf(),
        ensures
            final(self)@ == old(self)@.after_finish(now),
            view_of(segment) == (if old(self)@.drained() {
                Some(old(self)@.next_segment(FLAG_FIN, Seq::empty()))
            } else {
                None
            }),
            final(self)@.wf(),
    {
        let drained = match self.status {
            Status::Sending => self.data.len() == 0 && self.in_flight.len() == 0,
            _ => false,
        };
        if !drained {
            return None;
        }
        let none: [u8; 0] = [];
        assert(none@ =~= Seq::<u8>::empty());
        let segment = self.emit(FLAG_FIN, none.as_slice(), now);
        self.status = Status::Finished;
        Some(segment)
    }

    /// Whether the transfer is over.
    pub fn is_done(&self) -> (done: bool)
        ensures
            done == self@.done(),
    {
        match self.status {
            Status::Finished => self.in_flight.len() == 0,
            _ => false,
        }
    }

    /// Whether the sender is in a state that its operations keep: see
    /// `SenderView::wf`.
    pub fn is_well_formed(&self) -> (good: bool)
        ensures
            good == self@.wf(),
    {
        if !(2 <= self.cwnd && self.cwnd <= MAX_CWND && self.count < 3 && MIN_RTT <= self.rtt
            && self.rtt <= MAX_RTT && self.rto == 2 * self.rtt && self.cur_wnd <= MAX_WINDOW
            && self.cur_buf <= MAX_WINDOW) {
            return false;
        }
        let mut i: usize = 0;
        while i < self.data.len()
            invariant
                0 <= i <= self.data@.len(),
                forall|j: int| 0 <= j < i ==> #[trigger] self@.data[j].len() <= 1440,
            decreases self.data@.len() - i,
        {
            if self.data[i].len() > SEGMENT_SIZE {
                assert(self@.data[i as int].len() > 1440);
                return false;
            }
            i += 1;
        }
        let ghost queue = self@.in_flight;
        let mut total: u32 = 0;
        let mut k: usize = self.in_flight.len();
        proof {
            lemma_flight_bytes_skip(queue, k as int);
            assert(queue.skip(k as int) =~= Seq::empty());
            assert(queue.skip(0) =~= queue);
        }
        while k > 0
            invariant
                0 <= k <= self.in_flight@.len(),
                queue == self@.in_flight,
                total == flight_bytes(queue.skip(k as int)),
                total <= 60480,
                forall|j: int| k <= j < queue.len() ==> #[trigger] queue[j].data_len >= 1,
            decreases k,
        {
            k -= 1;
            proof {
                lemma_flight_bytes_skip(queue, k as int);
                lemma_flight_bytes_skip(queue, 0);
            }
            let taken: u16 = self.in_flight[k].data_len;
            assert(taken == queue[k as int].data_len);
            if taken < 1 || total + taken as u32 > 60480 {
                return false;
            }
            total = total + taken as u32;
        }
        assert(queue.skip(0) =~= queue);
        total == self.cur_buf as u32
    }
}

} // verus!
