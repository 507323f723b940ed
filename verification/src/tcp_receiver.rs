//! The receiving endpoint: accepts the handshake, checks each segment,
//! buffers what arrives early, and hands the stream out in order.

use vstd::prelude::*;
use std::collections::{HashMap, HashSet};
use crate::entropy::random_sequence_number;
use crate::status::Status;
use crate::tcp_header::{
    decoded, zero_digest, HeaderView, TcpHeader, FLAG_ACK, FLAG_FIN, FLAG_FIN_ACK, FLAG_PSH_ACK,
    FLAG_SYN, FLAG_SYN_ACK, HEADER_LEN, HEADER_WORDS, MAX_DATAGRAM, MAX_PAYLOAD,
};
use crate::util::{
    advance_by_len, ahead_by, lemma_ahead_by_wrap_add, lemma_trimmed_len, safe_increment,
    trim_payload, trimmed, wrap_add,
};

verus! {

/// The window that a receiver advertises, in bytes.
pub const RECEIVER_WINDOW: u16 = 65340;

/// The bytes that a run of buffered payloads holds: the payload stored under
/// `next`, then the one stored where that one ends, and so on until a
/// position has none. No payload is read twice, so every run ends.
#[verifier::opaque]
pub open spec fn chain(cache: Map<u32, Seq<u8>>, next: u32) -> Seq<u8>
    decreases cache.dom().len(),
    when cache.dom().finite()
{
    if cache.dom().contains(next) {
        cache[next] + chain(cache.remove(next), wrap_add(next, cache[next].len() as int))
    } else {
        Seq::empty()
    }
}

/// A receiver as a mathematical value.
pub struct ReceiverView {
    pub remote_port: u16,
    pub local_port: u16,
    pub status: Status,
    pub seq_num: u32,
    pub ack_num: u32,
    pub wnd_size: u16,
    pub file: Seq<u8>,
    pub cache: Map<u32, Seq<u8>>,
    pub seen: Set<u32>,
}

/// What one event makes a receiver do, as a mathematical value.
pub struct ReplyView {
    pub segment: Option<Seq<u8>>,
    pub delivered: Seq<u8>,
}

/// A receiver after an event, and what it did.
pub struct StepView {
    pub next: ReceiverView,
    pub reply: ReplyView,
}

/// What one event makes a receiver do.
#[derive(Debug)]
pub struct Reply {
    /// The segment to transmit to the peer, if any.
    pub segment: Option<Vec<u8>>,
    /// The bytes that join the output stream, in order.
    pub delivered: Vec<u8>,
}

impl View for Reply {
    type V = ReplyView;

    open spec fn view(&self) -> ReplyView {
        ReplyView {
            segment: match self.segment {
                Some(bytes) => Some(bytes@),
                None => None,
            },
            delivered: self.delivered@,
        }
    }
}

/// The receiving endpoint.
#[derive(Debug)]
pub struct Receiver {
    pub remote_port: u16,
    pub local_port: u16,
    pub status: Status,
    pub seq_num: u32,
    /// The next byte of the stream that has not been handed out.
    pub ack_num: u32,
    pub wnd_size: u16,
    /// Everything handed out so far.
    pub file: Vec<u8>,
    /// Payloads that arrived ahead of their turn, by sequence number.
    pub cache: HashMap<u32, Vec<u8>>,
    /// The sequence numbers of the segments taken in so far.
    pub seen: HashSet<u32>,
}

impl View for Receiver {
    type V = ReceiverView;

    open spec fn view(&self) -> ReceiverView {
        ReceiverView {
            remote_port: self.remote_port,
            local_port: self.local_port,
            status: self.status,
            seq_num: self.seq_num,
            ack_num: self.ack_num,
            wnd_size: self.wnd_size,
            file: self.file@,
            cache: Map::new(|k: u32| self.cache@.contains_key(k), |k: u32| self.cache@[k]@),
            seen: self.seen@,
        }
    }
}

impl ReceiverView {
    /// A receiver that has seen nothing, with `seq_num` as its first
    /// sequence number.
    pub open spec fn initial(local_port: u16, seq_num: u32) -> ReceiverView {
        ReceiverView {
            remote_port: 0,
            local_port,
            status: Status::StandBy,
            seq_num,
            ack_num: 0,
            wnd_size: RECEIVER_WINDOW,
            file: Seq::empty(),
            cache: Map::empty(),
            seen: Set::empty(),
        }
    }

    /// The acknowledgement number after `advance` more positions are
    /// acknowledged under `flags`: a bare FIN acknowledges nothing.
    pub open spec fn acked(self, advance: int, flags: u8) -> u32 {
        if flags == FLAG_FIN {
            self.ack_num
        } else {
            wrap_add(self.ack_num, advance)
        }
    }

    /// The header of the acknowledgement of `advance` more positions.
    pub open spec fn ack_header(self, advance: int, flags: u8) -> HeaderView {
        (HeaderView {
            source_port: self.local_port,
            destination_port: self.remote_port,
            sequence_number: self.seq_num,
            ack_number: self.acked(advance, flags),
            header_length: HEADER_WORDS,
            flags,
            window_size: self.wnd_size,
            hash_value: zero_digest(),
        }).sealed(Seq::empty())
    }

    /// The receiver after it has acknowledged `advance` more positions:
    /// every transmission uses up one sequence number.
    pub open spec fn after_ack(self, advance: int, flags: u8) -> ReceiverView {
        ReceiverView {
            ack_num: self.acked(advance, flags),
            seq_num: wrap_add(self.seq_num, 1),
            ..self
        }
    }

    /// The step that acknowledges `advance` positions, moves to `status` and
    /// hands out `delivered`.
    pub open spec fn answer(self, advance: int, flags: u8, status: Status, delivered: Seq<u8>) -> StepView {
        StepView {
            next: ReceiverView { status, ..self.after_ack(advance, flags) },
            reply: ReplyView {
                segment: Some(self.ack_header(advance, flags).encode()),
                delivered,
            },
        }
    }

    /// The step that drops the datagram: nothing changes, nothing is sent.
    pub open spec fn ignore(self) -> StepView {
        StepView { next: self, reply: ReplyView { segment: None, delivered: Seq::empty() } }
    }

    /// Whether the receiver takes a segment in at all: its flags are among
    /// those that the receiver's state expects, and its digest is right. A
    /// data segment is digested with its payload, any other alone.
    pub open spec fn admits(self, h: HeaderView, payload: Seq<u8>) -> bool {
        match self.status {
            Status::StandBy => h.flags == FLAG_SYN && h.verifies(Seq::empty()),
            Status::Handshake => h.flags == FLAG_ACK && h.verifies(Seq::empty())
                && h.sequence_number == self.ack_num,
            Status::Sending => {
                ||| h.flags == FLAG_PSH_ACK && h.verifies(payload)
                ||| (h.flags == FLAG_ACK || h.flags == FLAG_FIN) && h.verifies(Seq::empty())
            },
            Status::Finished => false,
        }
    }

    /// The step on a segment that was taken in while data flows.
    pub open spec fn on_segment(self, h: HeaderView, payload: Seq<u8>) -> StepView {
        if h.sequence_number != self.ack_num {
            let kept = if self.seen.contains(h.sequence_number) {
                self
            } else {
                ReceiverView {
                    seen: self.seen.insert(h.sequence_number),
                    cache: self.cache.insert(h.sequence_number, payload),
                    ..self
                }
            };
            kept.answer(0, FLAG_ACK, Status::Sending, Seq::empty())
        } else if h.flags == FLAG_FIN {
            self.answer(1, FLAG_FIN_ACK, Status::Finished, Seq::empty())
        } else {
            let after = wrap_add(self.ack_num, payload.len() as int);
            let delivered = payload + chain(self.cache, after);
            let grown = ReceiverView {
                seen: self.seen.insert(h.sequence_number),
                file: self.file + delivered,
                ..self
            };
            grown.answer(delivered.len() as int, FLAG_ACK, Status::Sending, delivered)
        }
    }

    /// What a datagram from `peer_port` makes the receiver do.
    pub open spec fn step(self, datagram: Seq<u8>, peer_port: u16) -> StepView {
        if datagram.len() < 48 {
            self.ignore()
        } else {
            let h = decoded(datagram);
            let payload = trimmed(datagram.subrange(48, datagram.len() as int));
            if !self.admits(h, payload) {
                self.ignore()
            } else {
                match self.status {
                    Status::StandBy => (ReceiverView {
                        remote_port: peer_port,
                        ack_num: h.sequence_number,
                        ..self
                    }).answer(1, FLAG_SYN_ACK, Status::Handshake, Seq::empty()),
                    Status::Handshake => self.answer(1, FLAG_ACK, Status::Sending, Seq::empty()),
                    Status::Sending => self.on_segment(h, payload),
                    Status::Finished => self.ignore(),
                }
            }
        }
    }

    /// What the passing of the resend interval makes the receiver do: once
    /// finished it repeats the closing acknowledgement, with the
    /// acknowledgement number unchanged.
    pub open spec fn tick(self) -> StepView {
        if self.status == Status::Finished {
            self.answer(0, FLAG_FIN_ACK, Status::Finished, Seq::empty())
        } else {
            self.ignore()
        }
    }

    /// How many positions a datagram moves the acknowledgement number on.
    pub open spec fn progress(self, datagram: Seq<u8>, peer_port: u16) -> nat {
        let step = self.step(datagram, peer_port);
        if step.reply.segment.is_none() {
            0
        } else if self.status == Status::Handshake || step.next.status == Status::Finished {
            1
        } else {
            step.reply.delivered.len()
        }
    }
}

/// Whether the digest that a datagram of at least 48 bytes carries is the
/// digest of what it holds: of header and payload where its flags make it a
/// data segment, of the header alone otherwise.
pub open spec fn intact(datagram: Seq<u8>) -> bool {
    let h = decoded(datagram);
    if h.flags == FLAG_PSH_ACK {
        h.verifies(trimmed(datagram.subrange(48, datagram.len() as int)))
    } else {
        h.verifies(Seq::empty())
    }
}

/// Digest gating: a datagram that is too short for a header, or whose digest
/// is broken, changes nothing in the receiver and draws no answer.
pub proof fn lemma_broken_digest_changes_nothing(r: ReceiverView, datagram: Seq<u8>, peer_port: u16)
    requires
        datagram.len() < 48 || !intact(datagram),
    ensures
        r.step(datagram, peer_port) == r.ignore(),
{
}

/// Whether a buffer is within the bounds that the advertised window sets:
/// it holds no more payloads than the window has bytes, and none of them is
/// longer than the payload of one segment.
pub open spec fn within_window(cache: Map<u32, Seq<u8>>) -> bool {
    &&& cache.dom().finite()
    &&& cache.dom().len() <= RECEIVER_WINDOW
    &&& forall|k: u32| cache.dom().contains(k) ==> (#[trigger] cache[k]).len() <= MAX_PAYLOAD
}

/// A run is no longer than all that the buffer holds.
proof fn lemma_chain_len(cache: Map<u32, Seq<u8>>, next: u32, limit: nat)
    requires
        cache.dom().finite(),
        forall|k: u32| cache.dom().contains(k) ==> (#[trigger] cache[k]).len() <= limit,
    ensures
        chain(cache, next).len() <= cache.dom().len() * limit,
    decreases cache.dom().len(),
{
    reveal(chain);
    if cache.dom().contains(next) {
        let less = cache.remove(next);
        assert forall|k: u32| less.dom().contains(k) implies (#[trigger] less[k]).len() <= limit by {
            assert(less[k] == cache[k]);
        }
        lemma_chain_len(less, wrap_add(next, cache[next].len() as int), limit);
        assert(less.dom().len() * limit + limit == cache.dom().len() * limit) by (nonlinear_arith)
            requires
                less.dom().len() + 1 == cache.dom().len(),
        ;
    } else {
        assert(0 <= cache.dom().len() * limit) by (nonlinear_arith);
    }
}

/// Monotone acknowledgement. Once the peer is known, and while the buffer
/// is within the bounds of the advertised window, a datagram of at most
/// 1500 bytes puts the acknowledgement number ahead by exactly the number
/// of positions that it completes: the bytes handed out, or one for a
/// control segment that is accepted. That is less than half the ring, so
/// the number never retreats, and it moves only when the output grows or a
/// control segment is accepted. The resend timer leaves it where it is.
pub proof fn lemma_ack_never_retreats(r: ReceiverView, datagram: Seq<u8>, peer_port: u16)
    requires
        r.status != Status::StandBy,
        within_window(r.cache),
        datagram.len() <= MAX_DATAGRAM,
    ensures
        r.progress(datagram, peer_port) < 0x8000_0000,
        ahead_by(r.ack_num, r.step(datagram, peer_port).next.ack_num) == r.progress(
            datagram,
            peer_port,
        ),
        r.step(datagram, peer_port).next.ack_num == wrap_add(
            r.ack_num,
            r.progress(datagram, peer_port) as int,
        ),
        r.step(datagram, peer_port).reply.segment.is_none() ==> r.step(
            datagram,
            peer_port,
        ).next.ack_num == r.ack_num,
        r.tick().next.ack_num == r.ack_num,
{
    let progress = r.progress(datagram, peer_port);
    if datagram.len() >= 48 {
        let rest = datagram.subrange(48, datagram.len() as int);
        let payload = trimmed(rest);
        lemma_trimmed_len(rest);
        lemma_chain_len(r.cache, wrap_add(r.ack_num, payload.len() as int), MAX_PAYLOAD as nat);
        assert(progress <= 1452 + 65340 * 1452);
    }
    lemma_ahead_by_wrap_add(r.ack_num, progress as int);
}

impl Receiver {
    /// The buffer of a receiver holds finitely many payloads.
    pub proof fn lemma_cache_finite(&self)
        ensures
            self@.cache.dom().finite(),
    {
        assert(self@.cache.dom() =~= self.cache@.dom());
    }

    /// A receiver on `local_port` with a random first sequence number.
    pub fn new(local_port: u16) -> (receiver: Self)
        ensures
            receiver@ == ReceiverView::initial(local_port, receiver.seq_num),
    {
        Self::with_sequence(local_port, random_sequence_number())
    }

    /// A receiver on `local_port` whose first sequence number is `seq_num`.
    pub fn with_sequence(local_port: u16, seq_num: u32) -> (receiver: Self)
        ensures
            receiver@ == ReceiverView::initial(local_port, seq_num),
    {
        let receiver = Receiver {
            remote_port: 0,
            local_port,
            status: Status::StandBy,
            seq_num,
            ack_num: 0,
            wnd_size: RECEIVER_WINDOW,
            file: Vec::new(),
            cache: HashMap::new(),
            seen: HashSet::new(),
        };
        assert(receiver@.cache =~= Map::empty());
        receiver
    }

    /// Builds the acknowledgement of `advance` more positions and accounts
    /// for it: the acknowledgement number moves on, unless `flags` is a bare
    /// FIN, and one sequence number is used up.
    pub fn send_ack(&mut self, advance: usize, flags: u8) -> (segment: Vec<u8>)
        ensures
            final(self)@ == old(self)@.after_ack(advance as int, flags),
            segment@ == old(self)@.ack_header(advance as int, flags).encode(),
    {
        if flags != FLAG_FIN {
            self.ack_num = advance_by_len(self.ack_num, advance);
        }
        let header = TcpHeader {
            source_port: self.local_port,
            destination_port: self.remote_port,
            sequence_number: self.seq_num,
            ack_number: self.ack_num,
            header_length: HEADER_WORDS,
            flags,
            window_size: self.wnd_size,
            hash_value: [0u8; 32],
        };
        let none: [u8; 0] = [];
        assert(none@ =~= Seq::<u8>::empty());
        assert(header.hash_value@ =~= zero_digest());
        let sealed = header.seal(none.as_slice());
        let bytes = sealed.as_bytes();
        self.seq_num = safe_increment(self.seq_num, 1);
        assert(self@ =~= old(self)@.after_ack(advance as int, flags));
        bytes
    }

    /// Reads from the buffer the run of payloads that starts at `seq_num`.
    /// The buffer keeps what it holds.
    pub fn check_cache(&mut self, seq_num: u32) -> (data: Vec<u8>)
        ensures
            data@ == chain(old(self)@.cache, seq_num),
            final(self)@ == old(self)@,
    {
        let mut data: Vec<u8> = Vec::new();
        let mut next: u32 = seq_num;
        let mut taken: HashSet<u32> = HashSet::new();
        let ghost mut left = self@.cache;
        proof {
            self.lemma_cache_finite();
        }
        assert(data@ + chain(left, next) =~= chain(old(self)@.cache, seq_num));
        while self.cache.contains_key(&next) && !taken.contains(&next)
            invariant
                *self == *old(self),
                left.dom().finite(),
                forall|k: u32|
                    left.dom().contains(k) <==> self@.cache.dom().contains(k) && !taken@.contains(k),
                forall|k: u32| left.dom().contains(k) ==> left[k] == self@.cache[k],
                data@ + chain(left, next) == chain(old(self)@.cache, seq_num),
            decreases left.dom().len(),
        {
            let ghost so_far = data@;
            let ghost at = next;
            let ghost before = left;
            match self.cache.get(&next) {
                Some(chunk) => {
                    data.extend_from_slice(chunk.as_slice());
                    taken.insert(next);
                    next = advance_by_len(next, chunk.len());
                    proof {
                        reveal(chain);
                        left = left.remove(at);
                        assert(data@ + chain(left, next) =~= so_far + chain(before, at));
                    }
                },
                None => {},
            }
        }
        proof {
            reveal(chain);
            assert(data@ =~= data@ + chain(left, next));
        }
        data
    }

    /// Whether the receiver takes a segment in at all.
    pub fn admits(&self, header: &TcpHeader, payload: &[u8]) -> (taken: bool)
        ensures
            taken == self@.admits(header@, payload@),
    {
        let none: [u8; 0] = [];
        assert(none@ =~= Seq::<u8>::empty());
        match self.status {
            Status::StandBy => header.flags == FLAG_SYN && header.verify(none.as_slice()),
            Status::Handshake => header.flags == FLAG_ACK && header.verify(none.as_slice())
                && header.sequence_number == self.ack_num,
            Status::Sending => {
                if header.flags == FLAG_PSH_ACK {
                    header.verify(payload)
                } else if header.flags == FLAG_ACK || header.flags == FLAG_FIN {
                    header.verify(none.as_slice())
                } else {
                    false
                }
            },
            Status::Finished => false,
        }
    }

    /// Buffers a segment that is not next in line, unless its sequence
    /// number was seen before, and repeats the acknowledgement.
    fn hold_back(&mut self, header: &TcpHeader, payload: &[u8]) -> (reply: Reply)
        requires
            header.sequence_number != old(self).ack_num,
        ensures
            final(self)@ == old(self)@.on_segment(header@, payload@).next,
            reply@ == old(self)@.on_segment(header@, payload@).reply,
    {
        if !self.seen.contains(&header.sequence_number) {
            self.seen.insert(header.sequence_number);
            self.cache.insert(header.sequence_number, vstd::slice::slice_to_vec(payload));
            assert(self@.cache =~= old(self)@.cache.insert(header.sequence_number, payload@));
        }
        let ghost kept = self@;
        let segment = self.send_ack(0, FLAG_ACK);
        self.status = Status::Sending;
        assert(self@ == kept.answer(0, FLAG_ACK, Status::Sending, Seq::empty()).next);
        Reply { segment: Some(segment), delivered: Vec::new() }
    }

    /// Hands out the payload that is next in line, together with the run of
    /// buffered payloads that follows it, and acknowledges them as a whole.
    fn deliver(&mut self, header: &TcpHeader, payload: &[u8]) -> (reply: Reply)
        requires
            header.sequence_number == old(self).ack_num,
            header.flags != FLAG_FIN,
        ensures
            final(self)@ == old(self)@.on_segment(header@, payload@).next,
            reply@ == old(self)@.on_segment(header@, payload@).reply,
    {
        self.seen.insert(header.sequence_number);
        let mut delivered = vstd::slice::slice_to_vec(payload);
        let after = advance_by_len(self.ack_num, delivered.len());
        assert(self@.cache =~= old(self)@.cache);
        let mut tail = self.check_cache(after);
        delivered.append(&mut tail);
        self.file.extend_from_slice(delivered.as_slice());
        let ghost grown = self@;
        assert(grown.cache == old(self)@.cache);
        assert(grown.file == old(self)@.file + delivered@);
        let segment = self.send_ack(delivered.len(), FLAG_ACK);
        self.status = Status::Sending;
        assert(self@ == grown.answer(delivered@.len() as int, FLAG_ACK, Status::Sending, delivered@).next);
        Reply { segment: Some(segment), delivered }
    }

    /// Handles a segment that was taken in while data flows. One that is
    /// not next in line is buffered, once, and the old acknowledgement is
    /// repeated. The closing segment in line is acknowledged and ends the
    /// transfer. Any other in line is handed out, together with the run of
    /// buffered payloads that follows it, and acknowledged as a whole.
    pub fn on_segment(&mut self, header: &TcpHeader, payload: &[u8]) -> (reply: Reply)
        ensures
            final(self)@ == old(self)@.on_segment(header@, payload@).next,
            reply@ == old(self)@.on_segment(header@, payload@).reply,
    {
        if header.sequence_number != self.ack_num {
            self.hold_back(header, payload)
        } else if header.flags == FLAG_FIN {
            let segment = self.send_ack(1, FLAG_FIN_ACK);
            self.status = Status::Finished;
            Reply { segment: Some(segment), delivered: Vec::new() }
        } else {
            self.deliver(header, payload)
        }
    }

    /// Handles one received datagram that came from `peer_port`, and says
    /// what to transmit and what to write to the output.
    pub fn on_datagram(&mut self, datagram: &[u8], peer_port: u16) -> (reply: Reply)
        ensures
            final(self)@ == old(self)@.step(datagram@, peer_port).next,
            reply@ == old(self)@.step(datagram@, peer_port).reply,
    {
        if datagram.len() < HEADER_LEN {
            return Reply { segment: None, delivered: Vec::new() };
        }
        let header = TcpHeader::new(datagram);
        let payload = trim_payload(vstd::slice::slice_subrange(datagram, HEADER_LEN, datagram.len()));
        if !self.admits(&header, payload) {
            return Reply { segment: None, delivered: Vec::new() };
        }
        match self.status {
            Status::StandBy => {
                self.remote_port = peer_port;
                self.ack_num = header.sequence_number;
                let segment = self.send_ack(1, FLAG_SYN_ACK);
                self.status = Status::Handshake;
                Reply { segment: Some(segment), delivered: Vec::new() }
            },
            Status::Handshake => {
                let segment = self.send_ack(1, FLAG_ACK);
                self.status = Status::Sending;
                Reply { segment: Some(segment), delivered: Vec::new() }
            },
            Status::Sending => self.on_segment(&header, payload),
            Status::Finished => Reply { segment: None, delivered: Vec::new() },
        }
    }

    /// Handles the passing of the resend interval.
    pub fn on_tick(&mut self) -> (reply: Reply)
        ensures
            final(self)@ == old(self)@.tick().next,
            reply@ == old(self)@.tick().reply,
    {
        match self.status {
            Status::Finished => {
                let segment = self.send_ack(0, FLAG_FIN_ACK);
                Reply { segment: Some(segment), delivered: Vec::new() }
            },
            _ => Reply { segment: None, delivered: Vec::new() },
        }
    }
}

} // verus!
