//! The segment codec: the 48-byte header and its digest.

use vstd::prelude::*;
use crate::digest::{digest_eq, sha256, sha256_digest};

verus! {

/// Bytes of a header on the wire.
pub const HEADER_LEN: usize = 48;

/// Bytes of the largest datagram: a header and the largest payload.
pub const MAX_DATAGRAM: usize = 1500;

/// Most payload bytes that one segment carries.
pub const MAX_PAYLOAD: usize = 1452;

pub const FLAG_FIN: u8 = 0x01;

pub const FLAG_SYN: u8 = 0x02;

pub const FLAG_ACK: u8 = 0x10;

pub const FLAG_FIN_ACK: u8 = 0x11;

pub const FLAG_SYN_ACK: u8 = 0x12;

pub const FLAG_PSH_ACK: u8 = 0x18;

/// The header length field, in units of four bytes.
pub const HEADER_WORDS: u8 = 4;

/// A header as a mathematical value.
pub struct HeaderView {
    pub source_port: u16,
    pub destination_port: u16,
    pub sequence_number: u32,
    pub ack_number: u32,
    pub header_length: u8,
    pub flags: u8,
    pub window_size: u16,
    pub hash_value: Seq<u8>,
}

/// The header of a segment.
#[derive(Clone, Copy, Debug)]
pub struct TcpHeader {
    pub source_port: u16,
    pub destination_port: u16,
    pub sequence_number: u32,
    pub ack_number: u32,
    pub header_length: u8,
    /// URG, ACK, PSH, RST, SYN, FIN, one bit each.
    pub flags: u8,
    pub window_size: u16,
    /// SHA-256 over the header with this field zeroed, then the payload.
    pub hash_value: [u8; 32],
}

impl View for TcpHeader {
    type V = HeaderView;

    open spec fn view(&self) -> HeaderView {
        HeaderView {
            source_port: self.source_port,
            destination_port: self.destination_port,
            sequence_number: self.sequence_number,
            ack_number: self.ack_number,
            header_length: self.header_length,
            flags: self.flags,
            window_size: self.window_size,
            hash_value: self.hash_value@,
        }
    }
}

/// A 16-bit value, most significant byte first.
pub open spec fn be16(x: u16) -> Seq<u8> {
    seq![(x / 256) as u8, (x % 256) as u8]
}

/// A 32-bit value, most significant byte first.
pub open spec fn be32(x: u32) -> Seq<u8> {
    seq![
        (x / 0x100_0000) as u8,
        (x / 0x1_0000 % 256) as u8,
        (x / 0x100 % 256) as u8,
        (x % 256) as u8,
    ]
}

/// The 16-bit value of two bytes, most significant first.
pub open spec fn from_be16(hi: u8, lo: u8) -> u16 {
    (hi * 256 + lo) as u16
}

/// The 32-bit value of four bytes, most significant first.
pub open spec fn from_be32(b0: u8, b1: u8, b2: u8, b3: u8) -> u32 {
    (b0 * 0x100_0000 + b1 * 0x1_0000 + b2 * 0x100 + b3) as u32
}

/// Thirty-two zero bytes: the digest field while the digest is computed.
pub open spec fn zero_digest() -> Seq<u8> {
    Seq::new(32, |i: int| 0u8)
}

/// The header that the first 48 bytes of `b` spell.
pub open spec fn decoded(b: Seq<u8>) -> HeaderView {
    HeaderView {
        source_port: from_be16(b[0], b[1]),
        destination_port: from_be16(b[2], b[3]),
        sequence_number: from_be32(b[4], b[5], b[6], b[7]),
        ack_number: from_be32(b[8], b[9], b[10], b[11]),
        header_length: b[12] / 16,
        flags: b[13] % 64,
        window_size: from_be16(b[14], b[15]),
        hash_value: b.subrange(16, 48),
    }
}

impl HeaderView {
    /// The header length fits its four bits, the flags their six, and the
    /// digest has 32 bytes.
    pub open spec fn well_formed(self) -> bool {
        &&& self.header_length < 16
        &&& self.flags < 64
        &&& self.hash_value.len() == 32
    }

    /// The 16 bytes before the digest field.
    pub open spec fn fixed_fields(self) -> Seq<u8> {
        be16(self.source_port) + be16(self.destination_port) + be32(self.sequence_number) + be32(
            self.ack_number,
        ) + seq![((self.header_length % 16) * 16) as u8, self.flags] + be16(self.window_size)
    }

    /// The header on the wire.
    pub open spec fn encode(self) -> Seq<u8> {
        self.fixed_fields() + self.hash_value
    }

    /// What is digested: the header with a zeroed digest field, then the payload.
    pub open spec fn digest_input(self, payload: Seq<u8>) -> Seq<u8> {
        self.fixed_fields() + zero_digest() + payload
    }

    /// The digest that this header must carry with `payload`.
    pub open spec fn digest(self, payload: Seq<u8>) -> Seq<u8> {
        sha256_digest(self.digest_input(payload))
    }

    /// Whether the digest field is the digest of header and payload.
    pub open spec fn verifies(self, payload: Seq<u8>) -> bool {
        self.hash_value == self.digest(payload)
    }

    /// This header with the digest of itself and `payload` written in.
    pub open spec fn sealed(self, payload: Seq<u8>) -> HeaderView {
        HeaderView { hash_value: self.digest(payload), ..self }
    }
}

/// The bytes of the fixed fields, one by one.
proof fn lemma_fixed_fields(h: HeaderView)
    ensures
        h.fixed_fields().len() == 16,
        h.fixed_fields()[0] == (h.source_port / 256) as u8,
        h.fixed_fields()[1] == (h.source_port % 256) as u8,
        h.fixed_fields()[2] == (h.destination_port / 256) as u8,
        h.fixed_fields()[3] == (h.destination_port % 256) as u8,
        h.fixed_fields()[4] == (h.sequence_number / 0x100_0000) as u8,
        h.fixed_fields()[5] == (h.sequence_number / 0x1_0000 % 256) as u8,
        h.fixed_fields()[6] == (h.sequence_number / 0x100 % 256) as u8,
        h.fixed_fields()[7] == (h.sequence_number % 256) as u8,
        h.fixed_fields()[8] == (h.ack_number / 0x100_0000) as u8,
        h.fixed_fields()[9] == (h.ack_number / 0x1_0000 % 256) as u8,
        h.fixed_fields()[10] == (h.ack_number / 0x100 % 256) as u8,
        h.fixed_fields()[11] == (h.ack_number % 256) as u8,
        h.fixed_fields()[12] == ((h.header_length % 16) * 16) as u8,
        h.fixed_fields()[13] == h.flags,
        h.fixed_fields()[14] == (h.window_size / 256) as u8,
        h.fixed_fields()[15] == (h.window_size % 256) as u8,
{
}

/// Codec round trip: decoding the encoding of a well-formed header gives the
/// header back, and with it the outcome of the digest check.
pub proof fn lemma_decode_encode(h: HeaderView, payload: Seq<u8>)
    requires
        h.well_formed(),
    ensures
        h.encode().len() == 48,
        decoded(h.encode()) == h,
        decoded(h.encode()).verifies(payload) == h.verifies(payload),
{
    lemma_fixed_fields(h);
    let b = h.encode();
    assert(b.subrange(16, 48) =~= h.hash_value);
    assert forall|i: int| 0 <= i < 16 implies b[i] == h.fixed_fields()[i] by {}
    assert(from_be16(b[0], b[1]) == h.source_port);
    assert(from_be16(b[2], b[3]) == h.destination_port);
    assert(from_be32(b[4], b[5], b[6], b[7]) == h.sequence_number);
    assert(from_be32(b[8], b[9], b[10], b[11]) == h.ack_number);
    assert(from_be16(b[14], b[15]) == h.window_size);
}

impl TcpHeader {
    /// Parses the first 48 bytes of `header_bytes`.
    pub fn new(header_bytes: &[u8]) -> (header: Self)
        requires
            header_bytes@.len() >= 48,
        ensures
            header@ == decoded(header_bytes@),
    {
        let source_port: u16 = (header_bytes[0] as u16) * 256 + (header_bytes[1] as u16);
        let destination_port: u16 = (header_bytes[2] as u16) * 256 + (header_bytes[3] as u16);
        let sequence_number: u32 = (header_bytes[4] as u32) * 0x100_0000 + (header_bytes[5] as u32)
            * 0x1_0000 + (header_bytes[6] as u32) * 0x100 + (header_bytes[7] as u32);
        let ack_number: u32 = (header_bytes[8] as u32) * 0x100_0000 + (header_bytes[9] as u32)
            * 0x1_0000 + (header_bytes[10] as u32) * 0x100 + (header_bytes[11] as u32);
        let header_length: u8 = header_bytes[12] / 16;
        let flags: u8 = header_bytes[13] % 64;
        let window_size: u16 = (header_bytes[14] as u16) * 256 + (header_bytes[15] as u16);
        let mut hash_value: [u8; 32] = [0u8; 32];
        let mut i: usize = 0;
        while i < 32
            invariant
                0 <= i <= 32,
                header_bytes@.len() >= 48,
                forall|j: int| 0 <= j < i ==> hash_value@[j] == header_bytes@[16 + j],
            decreases 32 - i,
        {
            hash_value[i] = header_bytes[16 + i];
            i += 1;
        }
        assert(hash_value@ =~= header_bytes@.subrange(16, 48));
        TcpHeader {
            source_port,
            destination_port,
            sequence_number,
            ack_number,
            header_length,
            flags,
            window_size,
            hash_value,
        }
    }

    /// Parses a header, or gives `None` where fewer than 48 bytes are there.
    pub fn decode(bytes: &[u8]) -> (header: Option<Self>)
        ensures
            bytes@.len() < 48 ==> header.is_none(),
            bytes@.len() >= 48 ==> header.is_some() && header.unwrap()@ == decoded(bytes@),
    {
        if bytes.len() < HEADER_LEN {
            None
        } else {
            Some(Self::new(bytes))
        }
    }

    /// The 16 bytes before the digest field.
    pub fn fixed_bytes(&self) -> (out: Vec<u8>)
        ensures
            out@ == self@.fixed_fields(),
    {
        let mut out: Vec<u8> = Vec::new();
        out.push((self.source_port / 256) as u8);
        out.push((self.source_port % 256) as u8);
        out.push((self.destination_port / 256) as u8);
        out.push((self.destination_port % 256) as u8);
        out.push((self.sequence_number / 0x100_0000) as u8);
        out.push((self.sequence_number / 0x1_0000 % 256) as u8);
        out.push((self.sequence_number / 0x100 % 256) as u8);
        out.push((self.sequence_number % 256) as u8);
        out.push((self.ack_number / 0x100_0000) as u8);
        out.push((self.ack_number / 0x1_0000 % 256) as u8);
        out.push((self.ack_number / 0x100 % 256) as u8);
        out.push((self.ack_number % 256) as u8);
        out.push((self.header_length % 16) * 16);
        out.push(self.flags);
        out.push((self.window_size / 256) as u8);
        out.push((self.window_size % 256) as u8);
        proof {
            lemma_fixed_fields(self@);
            assert(out@ =~= self@.fixed_fields());
        }
        out
    }

    /// The bytes that are digested: the fixed fields, 32 zero bytes in place
    /// of the digest, then `data`.
    pub fn as_bytes_without_hash(&self, data: &[u8]) -> (out: Vec<u8>)
        ensures
            out@ == self@.digest_input(data@),
    {
        let mut out = self.fixed_bytes();
        let mut i: usize = 0;
        while i < 32
            invariant
                0 <= i <= 32,
                out@ == self@.fixed_fields() + Seq::new(i as nat, |j: int| 0u8),
            decreases 32 - i,
        {
            out.push(0u8);
            i += 1;
            assert(out@ =~= self@.fixed_fields() + Seq::new(i as nat, |j: int| 0u8));
        }
        out.extend_from_slice(data);
        out
    }

    /// The header on the wire: 48 bytes.
    pub fn as_bytes(&self) -> (out: Vec<u8>)
        ensures
            out@ == self@.encode(),
            out@.len() == 48,
    {
        let mut out = self.fixed_bytes();
        let mut i: usize = 0;
        while i < 32
            invariant
                0 <= i <= 32,
                out@ == self@.fixed_fields() + self.hash_value@.subrange(0, i as int),
            decreases 32 - i,
        {
            out.push(self.hash_value[i]);
            i += 1;
            assert(out@ =~= self@.fixed_fields() + self.hash_value@.subrange(0, i as int));
        }
        proof {
            lemma_fixed_fields(self@);
            assert(self.hash_value@.subrange(0, 32) =~= self.hash_value@);
        }
        out
    }

    /// The digest of this header and `data`.
    pub fn calculate_header_data_hash(&self, data: &[u8]) -> (hash: [u8; 32])
        ensures
            hash@ == self@.digest(data@),
    {
        let input = self.as_bytes_without_hash(data);
        sha256(input.as_slice())
    }

    /// The digest of this header alone, as a control segment carries it.
    pub fn calculate_header_hash(&self) -> (hash: [u8; 32])
        ensures
            hash@ == self@.digest(Seq::<u8>::empty()),
    {
        let none: [u8; 0] = [];
        let hash = self.calculate_header_data_hash(none.as_slice());
        assert(none@ =~= Seq::<u8>::empty());
        hash
    }

    /// Whether the digest field is the digest of this header and `payload`.
    pub fn verify(&self, payload: &[u8]) -> (good: bool)
        ensures
            good == self@.verifies(payload@),
    {
        let hash = self.calculate_header_data_hash(payload);
        digest_eq(&hash, &self.hash_value)
    }

    /// This header with the digest of itself and `payload` written in.
    pub fn seal(self, payload: &[u8]) -> (header: Self)
        ensures
            header@ == self@.sealed(payload@),
            header@.verifies(payload@),
    {
        let hash_value = self.calculate_header_data_hash(payload);
        let header = TcpHeader { hash_value, ..self };
        assert(header@.fixed_fields() == self@.fixed_fields());
        header
    }
}

} // verus!
