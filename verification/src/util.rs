//! Sequence arithmetic modulo 2^32 and payload trimming.

use vstd::prelude::*;

verus! {

/// The size of the sequence-number space.
pub const SEQ_SPACE: u64 = 0x1_0000_0000;

/// `cur` advanced by `n` positions on the ring of sequence numbers.
pub open spec fn wrap_add(cur: u32, n: int) -> u32 {
    ((cur + n) % 0x1_0000_0000) as u32
}

/// The index of the first zero byte of `s` at or after `i`, or the length
/// of `s` where there is none.
pub open spec fn nul_from(s: Seq<u8>, i: int) -> int
    decreases s.len() - i,
{
    if i < 0 || i >= s.len() {
        s.len() as int
    } else if s[i] == 0 {
        i
    } else {
        nul_from(s, i + 1)
    }
}

/// How far `to` is ahead of `from` on the ring of sequence numbers.
pub open spec fn ahead_by(from: u32, to: u32) -> int {
    (to - from) % 0x1_0000_0000
}

/// The payload that a zero-terminated buffer carries: everything before the
/// first zero byte.
pub open spec fn trimmed(s: Seq<u8>) -> Seq<u8> {
    s.subrange(0, nul_from(s, 0))
}

/// Text that `String::from_utf8_lossy` makes of a byte sequence.
pub uninterp spec fn utf8_lossy_text(bytes: Seq<u8>) -> Seq<char>;

/// Calls `String::from_utf8_lossy` and takes ownership of the text. The
/// replacement of invalid sequences is not modelled: the result is given a
/// name, as a function of the bytes. Of valid UTF-8 the text is the decoded
/// bytes, unchanged.
#[verifier::external_body]
fn lossy_string(bytes: &[u8]) -> (s: String)
    ensures
        s@ == utf8_lossy_text(bytes@),
        vstd::utf8::valid_utf8(bytes@) ==> s@ == vstd::utf8::decode_utf8(bytes@),
{
    String::from_utf8_lossy(bytes).into_owned()
}

/// Bounds of the first zero byte.
proof fn lemma_nul_from_bounds(s: Seq<u8>, i: int)
    requires
        0 <= i <= s.len(),
    ensures
        i <= nul_from(s, i) <= s.len(),
        forall|j: int| i <= j < nul_from(s, i) ==> s[j] != 0,
        nul_from(s, i) < s.len() ==> s[nul_from(s, i)] == 0,
    decreases s.len() - i,
{
    if i < s.len() && s[i] != 0 {
        lemma_nul_from_bounds(s, i + 1);
    }
}

/// The payload of a buffer is no longer than the buffer.
pub proof fn lemma_trimmed_len(s: Seq<u8>)
    ensures
        trimmed(s).len() <= s.len(),
{
    lemma_nul_from_bounds(s, 0);
}

/// Advancing by less than the size of the ring puts a number that far ahead.
pub proof fn lemma_ahead_by_wrap_add(cur: u32, n: int)
    requires
        0 <= n < 0x1_0000_0000,
    ensures
        ahead_by(cur, wrap_add(cur, n)) == n,
{
}

/// A buffer without a zero byte is its own payload.
pub proof fn lemma_trimmed_without_nul(s: Seq<u8>)
    requires
        forall|j: int| 0 <= j < s.len() ==> s[j] != 0,
    ensures
        trimmed(s) == s,
{
    lemma_nul_from_bounds(s, 0);
    assert(trimmed(s) =~= s);
}

/// The part of `buf` before its first zero byte.
pub fn trim_payload(buf: &[u8]) -> (out: &[u8])
    ensures
        out@ == trimmed(buf@),
{
    let mut i: usize = 0;
    while i < buf.len() && buf[i] != 0
        invariant
            0 <= i <= buf.len(),
            nul_from(buf@, 0) == nul_from(buf@, i as int),
        decreases buf.len() - i,
    {
        i += 1;
    }
    vstd::slice::slice_subrange(buf, 0, i)
}

/// Reads a zero-terminated buffer as text: the bytes before the first zero
/// byte, converted leniently.
pub fn read_to_string(buf: &[u8]) -> (s: String)
    ensures
        s@ == utf8_lossy_text(trimmed(buf@)),
        vstd::utf8::valid_utf8(trimmed(buf@)) ==> s@ == vstd::utf8::decode_utf8(trimmed(buf@)),
{
    lossy_string(trim_payload(buf))
}

/// Adds `add_bytes` to a sequence number, wrapping at 2^32.
pub fn safe_increment(cur_seq: u32, add_bytes: u32) -> (next: u32)
    ensures
        next == wrap_add(cur_seq, add_bytes as int),
        cur_seq + add_bytes < 0x1_0000_0000 ==> next == cur_seq + add_bytes,
        cur_seq + add_bytes >= 0x1_0000_0000 ==> next == add_bytes - (0x1_0000_0000 - cur_seq),
{
    let dst_to_wrap: u32 = u32::MAX - cur_seq;
    if dst_to_wrap < add_bytes {
        add_bytes - dst_to_wrap - 1
    } else {
        cur_seq + add_bytes
    }
}

/// Adds a length to a sequence number, wrapping at 2^32.
pub fn advance_by_len(cur_seq: u32, len: usize) -> (next: u32)
    ensures
        next == wrap_add(cur_seq, len as int),
{
    let reduced: u64 = (len as u64) % SEQ_SPACE;
    safe_increment(cur_seq, reduced as u32)
}

/// Wrap law: `k` positions before the wrap, an increment of more than `k`
/// lands on `n - k`, and one of less than `k` on the plain sum.
pub proof fn lemma_safe_increment_wrap(k: int, n: u32)
    requires
        1 <= k <= 0x1_0000_0000,
    ensures
        n > k ==> wrap_add((0x1_0000_0000 - k) as u32, n as int) == n - k,
        n < k ==> wrap_add((0x1_0000_0000 - k) as u32, n as int) == 0x1_0000_0000 - k + n,
        n == k ==> wrap_add((0x1_0000_0000 - k) as u32, n as int) == 0,
{
}

/// Advancing in two steps is advancing by the sum.
pub proof fn lemma_wrap_add_add(cur: u32, a: int, b: int)
    requires
        0 <= a,
        0 <= b,
    ensures
        wrap_add(wrap_add(cur, a), b) == wrap_add(cur, a + b),
{
}

} // verus!
