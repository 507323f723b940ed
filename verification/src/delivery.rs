//! In-order delivery: whatever the order in which the segments of a stream
//! arrive, and however often each of them arrives, the receiver hands out
//! the stream.

use vstd::prelude::*;
use crate::status::Status;
use crate::tcp_header::{decoded, lemma_decode_encode, HeaderView, FLAG_PSH_ACK};
use crate::tcp_receiver::{chain, ReceiverView};
use crate::tcp_sender::{chunk, chunks};
use crate::util::{lemma_trimmed_without_nul, lemma_wrap_add_add, trimmed, wrap_add};

verus! {

/// The length of the first `i` payloads together.
pub open spec fn total_len(payloads: Seq<Seq<u8>>, i: int) -> int
    decreases i,
{
    if i <= 0 {
        0
    } else {
        total_len(payloads, i - 1) + payloads[i - 1].len()
    }
}

/// The first `i` payloads, one after the other.
pub open spec fn joined(payloads: Seq<Seq<u8>>, i: int) -> Seq<u8>
    decreases i,
{
    if i <= 0 {
        Seq::empty()
    } else {
        joined(payloads, i - 1) + payloads[i - 1]
    }
}

/// The sequence number of payload `i` in a stream that starts at `first`.
pub open spec fn start_of(first: u32, payloads: Seq<Seq<u8>>, i: int) -> u32 {
    wrap_add(first, total_len(payloads, i))
}

/// A stream cut into payloads whose sequence numbers tell them apart: no
/// payload is empty, and all together are shorter than 2^32 bytes.
pub open spec fn is_stream(payloads: Seq<Seq<u8>>) -> bool {
    &&& forall|i: int| 0 <= i < payloads.len() ==> (#[trigger] payloads[i]).len() > 0
    &&& total_len(payloads, payloads.len() as int) < 0x1_0000_0000
}

/// Whether `datagram` is a data segment with sequence number `seq` and a
/// right digest whose payload, as a receiver reads it, is `payload`.
#[verifier::opaque]
pub open spec fn carries(datagram: Seq<u8>, seq: u32, payload: Seq<u8>) -> bool {
    &&& datagram.len() >= 48
    &&& decoded(datagram).flags == FLAG_PSH_ACK
    &&& decoded(datagram).sequence_number == seq
    &&& trimmed(datagram.subrange(48, datagram.len() as int)) == payload
    &&& decoded(datagram).verifies(payload)
}

/// What a sender puts on the wire carries its payload: a data segment made
/// of a well-formed header with a right digest and a payload without a zero
/// byte carries that payload under the header's sequence number.
pub proof fn lemma_sealed_segment_carries(h: HeaderView, payload: Seq<u8>)
    requires
        h.well_formed(),
        h.flags == FLAG_PSH_ACK,
        h.verifies(payload),
        forall|j: int| 0 <= j < payload.len() ==> payload[j] != 0,
    ensures
        carries(h.encode() + payload, h.sequence_number, payload),
{
    reveal(carries);
    let datagram = h.encode() + payload;
    lemma_decode_encode(h, payload);
    lemma_trimmed_without_nul(payload);
    assert(datagram.subrange(48, datagram.len() as int) =~= payload);
    assert(datagram.subrange(16, 48) =~= h.encode().subrange(16, 48));
    assert(decoded(datagram) == decoded(h.encode()));
}

/// The receiver after `datagram` came in.
#[verifier::opaque]
pub open spec fn after_one(r: ReceiverView, datagram: Seq<u8>, peer_port: u16) -> ReceiverView {
    r.step(datagram, peer_port).next
}

/// The receiver after the datagrams of `arrivals` came in, one by one.
pub open spec fn after_all(r: ReceiverView, arrivals: Seq<Seq<u8>>, peer_port: u16) -> ReceiverView
    decreases arrivals.len(),
{
    if arrivals.len() == 0 {
        r
    } else {
        after_one(after_all(r, arrivals.drop_last(), peer_port), arrivals.last(), peer_port)
    }
}

/// The receiver after it has acknowledged a segment that was not next in
/// line: payload and sequence number are kept, unless the sequence number
/// was seen before.
pub open spec fn held_back(r: ReceiverView, seq: u32, payload: Seq<u8>) -> ReceiverView {
    ReceiverView {
        seq_num: wrap_add(r.seq_num, 1),
        seen: r.seen.insert(seq),
        cache: if r.seen.contains(seq) {
            r.cache
        } else {
            r.cache.insert(seq, payload)
        },
        ..r
    }
}

/// The receiver after it has handed out the payload that was next in line,
/// and the run of buffered payloads behind it. The buffer keeps them.
pub open spec fn handed_out(r: ReceiverView, payload: Seq<u8>) -> ReceiverView {
    let start = wrap_add(r.ack_num, payload.len() as int);
    let delivered = payload + chain(r.cache, start);
    ReceiverView {
        seq_num: wrap_add(r.seq_num, 1),
        ack_num: wrap_add(r.ack_num, delivered.len() as int),
        seen: r.seen.insert(r.ack_num),
        file: r.file + delivered,
        ..r
    }
}

/// What a data segment does to a receiver while data flows.
proof fn lemma_data_segment(
    r: ReceiverView,
    datagram: Seq<u8>,
    peer_port: u16,
    seq: u32,
    payload: Seq<u8>,
)
    requires
        r.status == Status::Sending,
        carries(datagram, seq, payload),
    ensures
        seq != r.ack_num ==> after_one(r, datagram, peer_port) == held_back(r, seq, payload),
        seq == r.ack_num ==> after_one(r, datagram, peer_port) == handed_out(r, payload),
{
    reveal(carries);
    reveal(after_one);
    let h = decoded(datagram);
    assert(r.admits(h, payload));
    assert(r.step(datagram, peer_port) == r.on_segment(h, payload));
    let next = r.on_segment(h, payload).next;
    if seq != r.ack_num {
        assert(wrap_add(r.ack_num, 0) == r.ack_num);
        if r.seen.contains(seq) {
            assert(r.seen.insert(seq) =~= r.seen);
        }
        assert(next == held_back(r, seq, payload));
    } else {
        assert(next == handed_out(r, payload));
    }
}

/// What holds of a receiver in the middle of a stream of which it has
/// handed out the first `p` payloads: it expects payload `p`, its output is
/// what came before the stream and those payloads, its buffer holds
/// payloads of the stream under their sequence numbers but not payload `p`,
/// and it has seen what it handed out or buffered.
#[verifier::opaque]
pub open spec fn in_stream(
    r: ReceiverView,
    first: u32,
    before: Seq<u8>,
    payloads: Seq<Seq<u8>>,
    p: int,
) -> bool {
    &&& r.status == Status::Sending
    &&& r.cache.dom().finite()
    &&& 0 <= p <= payloads.len()
    &&& r.ack_num == start_of(first, payloads, p)
    &&& r.file == before + joined(payloads, p)
    &&& holds_stream(r.cache, first, payloads)
    &&& !r.cache.dom().contains(start_of(first, payloads, p))
    &&& forall|i: int| 0 <= i < p ==> r.seen.contains(#[trigger] start_of(first, payloads, i))
    &&& forall|i: int|
        0 <= i <= payloads.len() && r.cache.dom().contains(#[trigger] start_of(first, payloads, i))
            ==> r.seen.contains(start_of(first, payloads, i))
    &&& forall|i: int|
        p <= i < payloads.len() && r.seen.contains(#[trigger] start_of(first, payloads, i))
            ==> r.cache.dom().contains(start_of(first, payloads, i))
}

/// Whether a buffer holds, under the sequence numbers of the stream, the
/// stream's payloads as they are, and nothing where the stream ends.
pub open spec fn holds_stream(cache: Map<u32, Seq<u8>>, first: u32, payloads: Seq<Seq<u8>>) -> bool {
    forall|i: int|
        0 <= i <= payloads.len() && cache.dom().contains(#[trigger] start_of(first, payloads, i))
            ==> i < payloads.len() && cache[start_of(first, payloads, i)] == payloads[i]
}

/// Whether payload `i` is among the arrivals, which carry the payloads
/// that `order` lists.
pub open spec fn arrives(order: Seq<int>, i: int) -> bool {
    exists|j: int| 0 <= j < order.len() && #[trigger] order[j] == i
}

/// Whether payload `i` has reached the output or the buffer.
pub open spec fn taken_in(r: ReceiverView, first: u32, payloads: Seq<Seq<u8>>, p: int, i: int) -> bool {
    i < p || r.cache.dom().contains(start_of(first, payloads, i))
}

/// The lengths of a stream's payloads add up without gaps.
proof fn lemma_total_len(payloads: Seq<Seq<u8>>, i: int, j: int)
    requires
        is_stream(payloads),
        0 <= i <= j <= payloads.len(),
    ensures
        0 <= total_len(payloads, i) <= total_len(payloads, j),
        i < j ==> total_len(payloads, i) < total_len(payloads, j),
        joined(payloads, j).len() == total_len(payloads, j),
    decreases j,
{
    if j > 0 {
        if i < j {
            lemma_total_len(payloads, i, j - 1);
        } else {
            lemma_total_len(payloads, i - 1, j - 1);
        }
    }
}

/// The first `i` payloads that a sender cuts from its input are the first
/// `i` times 1440 bytes of the input, or all of it.
proof fn lemma_chunks_prefix(input: Seq<u8>, i: int)
    requires
        0 <= i <= chunks(input).len(),
    ensures
        total_len(chunks(input), i) == if i * 1440 < input.len() {
            i * 1440
        } else {
            input.len() as int
        },
        joined(chunks(input), i) == input.subrange(0, total_len(chunks(input), i)),
    decreases i,
{
    if i > 0 {
        lemma_chunks_prefix(input, i - 1);
        assert(chunks(input)[i - 1] == chunk(input, i - 1));
        assert(joined(chunks(input), i) =~= input.subrange(0, total_len(chunks(input), i)));
    } else {
        assert(joined(chunks(input), 0) =~= input.subrange(0, 0));
    }
}

/// Cutting loses nothing: the payloads that a sender cuts from an input
/// shorter than 2^32 bytes are a stream, and joined they are the input.
pub proof fn lemma_chunks_are_stream(input: Seq<u8>)
    requires
        input.len() < 0x1_0000_0000,
    ensures
        is_stream(chunks(input)),
        joined(chunks(input), chunks(input).len() as int) == input,
        forall|i: int| 0 <= i < chunks(input).len() ==> (#[trigger] chunks(input)[i]).len() <= 1440,
{
    let n = chunks(input).len() as int;
    lemma_chunks_prefix(input, n);
    assert(input.subrange(0, input.len() as int) =~= input);
    assert forall|i: int| 0 <= i < n implies 0 < (#[trigger] chunks(input)[i]).len() <= 1440 by {
        assert(chunks(input)[i] == chunk(input, i));
    }
}

/// Different payloads of a stream have different sequence numbers.
proof fn lemma_starts_differ(first: u32, payloads: Seq<Seq<u8>>, i: int, j: int)
    requires
        is_stream(payloads),
        0 <= i <= payloads.len(),
        0 <= j <= payloads.len(),
        i != j,
    ensures
        start_of(first, payloads, i) != start_of(first, payloads, j),
{
    let n = payloads.len() as int;
    if i < j {
        lemma_total_len(payloads, i, j);
        lemma_total_len(payloads, j, n);
    } else {
        lemma_total_len(payloads, j, i);
        lemma_total_len(payloads, i, n);
    }
}

/// The sequence number of a payload, advanced by its length, is the
/// sequence number of the next.
proof fn lemma_next_start(first: u32, payloads: Seq<Seq<u8>>, i: int, extra: int)
    requires
        is_stream(payloads),
        0 <= i <= payloads.len(),
        0 <= extra,
    ensures
        wrap_add(start_of(first, payloads, i), extra) == wrap_add(
            first,
            total_len(payloads, i) + extra,
        ),
{
    lemma_total_len(payloads, i, i);
    lemma_wrap_add_add(first, total_len(payloads, i), extra);
}

/// The run of buffered payloads that starts at payload `q` is a piece of
/// the stream: the buffer holds every payload of the run, and the run ends
/// before a payload `end` that the buffer does not hold.
proof fn lemma_chain_is_stream(
    cache: Map<u32, Seq<u8>>,
    first: u32,
    payloads: Seq<Seq<u8>>,
    q: int,
) -> (end: int)
    requires
        is_stream(payloads),
        cache.dom().finite(),
        0 <= q <= payloads.len(),
        holds_stream(cache, first, payloads),
    ensures
        q <= end <= payloads.len(),
        joined(payloads, end) == joined(payloads, q) + chain(
            cache,
            start_of(first, payloads, q),
        ),
        forall|j: int| q <= j < end ==> cache.dom().contains(#[trigger] start_of(first, payloads, j)),
        !cache.dom().contains(start_of(first, payloads, end)),
    decreases payloads.len() - q,
{
    reveal(chain);
    let at = start_of(first, payloads, q);
    if cache.dom().contains(at) {
        assert(q < payloads.len());
        let less = cache.remove(at);
        lemma_next_start(first, payloads, q, payloads[q].len() as int);
        let next = wrap_add(at, cache[at].len() as int);
        assert(next == start_of(first, payloads, q + 1));
        let end = lemma_chain_is_stream(less, first, payloads, q + 1);
        assert(chain(cache, at) == cache[at] + chain(less, next));
        assert(joined(payloads, end) =~= joined(payloads, q) + chain(cache, at));
        lemma_starts_differ(first, payloads, end, q);
        end
    } else {
        assert(joined(payloads, q) =~= joined(payloads, q) + chain(cache, at));
        q
    }
}

/// A payload that is not next in line keeps a receiver in the stream: it
/// is in the output already or in the buffer afterwards.
proof fn lemma_held_back_keeps_stream(
    r: ReceiverView,
    first: u32,
    before: Seq<u8>,
    payloads: Seq<Seq<u8>>,
    p: int,
    i: int,
)
    requires
        is_stream(payloads),
        in_stream(r, first, before, payloads, p),
        0 <= i < payloads.len(),
        i != p,
    ensures
        start_of(first, payloads, i) != r.ack_num,
        in_stream(
            held_back(r, start_of(first, payloads, i), payloads[i]),
            first,
            before,
            payloads,
            p,
        ),
        taken_in(held_back(r, start_of(first, payloads, i), payloads[i]), first, payloads, p, i),
        forall|j: int|
            0 <= j < payloads.len() && taken_in(r, first, payloads, p, j) ==> taken_in(
                held_back(r, start_of(first, payloads, i), payloads[i]),
                first,
                payloads,
                p,
                j,
            ),
{
    reveal(in_stream);
    let seq = start_of(first, payloads, i);
    let next = held_back(r, seq, payloads[i]);
    lemma_starts_differ(first, payloads, i, p);
    if r.seen.contains(seq) {
        assert(next.seen =~= r.seen);
    } else {
        assert(i > p);
        assert forall|j: int|
            0 <= j <= payloads.len() && next.cache.dom().contains(
                #[trigger] start_of(first, payloads, j),
            ) implies j < payloads.len() && next.cache[start_of(first, payloads, j)]
            == payloads[j] by {
            if j != i {
                lemma_starts_differ(first, payloads, j, i);
            }
        }
    }
}

/// The payload that is next in line keeps a receiver in the stream: it
/// reaches the output, with the run of buffered payloads behind it.
proof fn lemma_handed_out_keeps_stream(
    r: ReceiverView,
    first: u32,
    before: Seq<u8>,
    payloads: Seq<Seq<u8>>,
    p: int,
) -> (end: int)
    requires
        is_stream(payloads),
        in_stream(r, first, before, payloads, p),
        p < payloads.len(),
    ensures
        start_of(first, payloads, p) == r.ack_num,
        p < end,
        in_stream(handed_out(r, payloads[p]), first, before, payloads, end),
        forall|j: int|
            0 <= j < payloads.len() && taken_in(r, first, payloads, p, j) ==> taken_in(
                handed_out(r, payloads[p]),
                first,
                payloads,
                end,
                j,
            ),
{
    reveal(in_stream);
    let seq = start_of(first, payloads, p);
    let next = handed_out(r, payloads[p]);
    let start = wrap_add(r.ack_num, payloads[p].len() as int);
    lemma_next_start(first, payloads, p, payloads[p].len() as int);
    assert(start == start_of(first, payloads, p + 1));
    let end = lemma_chain_is_stream(r.cache, first, payloads, p + 1);
    let delivered = payloads[p] + chain(r.cache, start);
    lemma_total_len(payloads, p + 1, end);
    lemma_total_len(payloads, p, p + 1);
    lemma_total_len(payloads, end, end);
    assert(joined(payloads, p + 1) == joined(payloads, p) + payloads[p]);
    assert(joined(payloads, end) =~= joined(payloads, p) + delivered);
    lemma_next_start(first, payloads, p, delivered.len() as int);
    assert(next.ack_num == start_of(first, payloads, end));
    assert(next.file =~= before + joined(payloads, end));
    assert forall|j: int|
        end <= j < payloads.len() && next.seen.contains(
            #[trigger] start_of(first, payloads, j),
        ) implies next.cache.dom().contains(start_of(first, payloads, j)) by {
        lemma_starts_differ(first, payloads, j, p);
    }
    end
}

/// A data segment of the stream keeps a receiver in the stream: it is
/// handed out or buffered, and what was handed out or buffered before
/// stays so.
proof fn lemma_segment_keeps_stream(
    r: ReceiverView,
    first: u32,
    before: Seq<u8>,
    payloads: Seq<Seq<u8>>,
    p: int,
    datagram: Seq<u8>,
    peer_port: u16,
    i: int,
) -> (ahead: int)
    requires
        is_stream(payloads),
        in_stream(r, first, before, payloads, p),
        0 <= i < payloads.len(),
        carries(datagram, start_of(first, payloads, i), payloads[i]),
    ensures
        p <= ahead,
        in_stream(after_one(r, datagram, peer_port), first, before, payloads, ahead),
        taken_in(after_one(r, datagram, peer_port), first, payloads, ahead, i),
        forall|j: int|
            0 <= j < payloads.len() && taken_in(r, first, payloads, p, j) ==> taken_in(
                after_one(r, datagram, peer_port),
                first,
                payloads,
                ahead,
                j,
            ),
{
    assert(r.status == Status::Sending) by {
        reveal(in_stream);
    }
    lemma_data_segment(r, datagram, peer_port, start_of(first, payloads, i), payloads[i]);
    if i != p {
        lemma_held_back_keeps_stream(r, first, before, payloads, p, i);
        p
    } else {
        lemma_handed_out_keeps_stream(r, first, before, payloads, p)
    }
}

/// In-order delivery. A receiver expects a stream of payloads, none of them
/// empty and all together shorter than 2^32 bytes, and has buffered and seen
/// nothing yet. Data segments arrive: each carries one of the payloads under
/// its sequence number with a right digest, in any order and any number of
/// times, and each payload arrives at least once. Then the receiver's output
/// is what it was before, followed by the stream.
pub proof fn lemma_in_order_delivery(
    r: ReceiverView,
    payloads: Seq<Seq<u8>>,
    arrivals: Seq<Seq<u8>>,
    order: Seq<int>,
    peer_port: u16,
)
    requires
        is_stream(payloads),
        r.status == Status::Sending,
        r.cache == Map::<u32, Seq<u8>>::empty(),
        r.seen == Set::<u32>::empty(),
        order.len() == arrivals.len(),
        forall|j: int|
            0 <= j < arrivals.len() ==> 0 <= #[trigger] order[j] < payloads.len() && carries(
                arrivals[j],
                start_of(r.ack_num, payloads, order[j]),
                payloads[order[j]],
            ),
        forall|i: int| 0 <= i < payloads.len() ==> #[trigger] arrives(order, i),
    ensures
        after_all(r, arrivals, peer_port).file == r.file + joined(
            payloads,
            payloads.len() as int,
        ),
        after_all(r, arrivals, peer_port).ack_num == wrap_add(
            r.ack_num,
            total_len(payloads, payloads.len() as int),
        ),
{
    let n = payloads.len() as int;
    let p = lemma_arrivals_keep_stream(r, payloads, arrivals, order, peer_port, arrivals.len() as int);
    assert(arrivals.take(arrivals.len() as int) =~= arrivals);
    let last = after_all(r, arrivals, peer_port);
    reveal(in_stream);
    if p < n {
        assert(arrives(order, p));
        let j = choose|j: int| 0 <= j < order.len() && #[trigger] order[j] == p;
        assert(taken_in(last, r.ack_num, payloads, p, order[j]));
        assert(last.cache.dom().contains(start_of(r.ack_num, payloads, p)));
        assert(false);
    }
}

/// After the first `m` arrivals the receiver is in the stream, and every
/// payload that has arrived is handed out or buffered.
proof fn lemma_arrivals_keep_stream(
    r: ReceiverView,
    payloads: Seq<Seq<u8>>,
    arrivals: Seq<Seq<u8>>,
    order: Seq<int>,
    peer_port: u16,
    m: int,
) -> (p: int)
    requires
        is_stream(payloads),
        r.status == Status::Sending,
        r.cache == Map::<u32, Seq<u8>>::empty(),
        r.seen == Set::<u32>::empty(),
        order.len() == arrivals.len(),
        0 <= m <= arrivals.len(),
        forall|j: int|
            0 <= j < arrivals.len() ==> 0 <= #[trigger] order[j] < payloads.len() && carries(
                arrivals[j],
                start_of(r.ack_num, payloads, order[j]),
                payloads[order[j]],
            ),
    ensures
        in_stream(after_all(r, arrivals.take(m), peer_port), r.ack_num, r.file, payloads, p),
        forall|j: int|
            0 <= j < m ==> taken_in(
                after_all(r, arrivals.take(m), peer_port),
                r.ack_num,
                payloads,
                p,
                #[trigger] order[j],
            ),
    decreases m,
{
    if m == 0 {
        assert(after_all(r, arrivals.take(0), peer_port) == r);
        assert(in_stream(r, r.ack_num, r.file, payloads, 0)) by {
            reveal(in_stream);
            assert(r.file =~= r.file + joined(payloads, 0));
            assert(wrap_add(r.ack_num, 0) == r.ack_num);
        }
        0
    } else {
        let reached = lemma_arrivals_keep_stream(r, payloads, arrivals, order, peer_port, m - 1);
        let mid = after_all(r, arrivals.take(m - 1), peer_port);
        assert(arrivals.take(m).drop_last() =~= arrivals.take(m - 1));
        assert(arrivals.take(m).last() == arrivals[m - 1]);
        assert(after_all(r, arrivals.take(m), peer_port) == after_one(
            mid,
            arrivals[m - 1],
            peer_port,
        ));
        let ahead = lemma_segment_keeps_stream(
            mid,
            r.ack_num,
            r.file,
            payloads,
            reached,
            arrivals[m - 1],
            peer_port,
            order[m - 1],
        );
        assert forall|j: int| 0 <= j < m implies taken_in(
            after_one(mid, arrivals[m - 1], peer_port),
            r.ack_num,
            payloads,
            ahead,
            #[trigger] order[j],
        ) by {
            if j < m - 1 {
                assert(taken_in(mid, r.ack_num, payloads, reached, order[j]));
            }
        }
        ahead
    }
}

} // verus!
