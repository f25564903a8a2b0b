//! Encoding and decoding of ICMP Echo Request / Reply packets.

use vstd::prelude::*;
use vstd::arithmetic::div_mod::{lemma_fundamental_div_mod, lemma_mod_multiples_vanish};
use crate::checksum::{
    checksum, checksum_of, fold_carries, word_sum, lemma_fold_residue, ones_residue,
};

verus! {

/// ICMPv4 Echo Reply.
pub const ECHO_REPLY: u8 = 0;

/// ICMPv4 Echo Request.
pub const ECHO_REQUEST: u8 = 8;

/// ICMPv6 Echo Request.
pub const ECHO_REQUEST_V6: u8 = 128;

/// ICMPv6 Echo Reply.
pub const ECHO_REPLY_V6: u8 = 129;

/// Size of the ICMP Echo header.
pub const HEADER_LEN: usize = 8;

/// Largest payload that fits a 1500-byte Ethernet MTU over IPv4
/// (20 bytes of IP header, 8 of ICMP header).
pub const MAX_PAYLOAD: usize = 1472;

/// The payload was larger than `MAX_PAYLOAD`.
#[derive(Debug, Clone, Copy, PartialEq, Eq, Structural)]
pub enum EncodingError {
    PayloadTooLarge,
}

/// Why a received byte sequence is not an Echo packet.
#[derive(Debug, Clone, Copy, PartialEq, Eq, Structural)]
pub enum DecodeError {
    /// Shorter than the 8-byte header.
    Truncated,
    /// The checksum does not verify.
    ChecksumMismatch,
    /// A well-formed ICMP message that is not an echo request or reply
    /// (destination unreachable, time exceeded, ...), kept for diagnostics.
    UnsupportedType { icmp_type: u8, code: u8 },
}

/// A decoded Echo Request or Reply.
#[derive(Debug)]
pub struct EchoPacket {
    pub icmp_type: u8,
    pub code: u8,
    pub checksum: u16,
    pub identifier: u16,
    pub sequence: u16,
    pub payload: Vec<u8>,
}

/// The 8 header bytes, 16-bit fields in network byte order.
pub open spec fn echo_header(icmp_type: u8, code: u8, sum: u16, identifier: u16, sequence: u16) -> Seq<u8> {
    seq![
        icmp_type,
        code,
        (sum / 256) as u8,
        (sum % 256) as u8,
        (identifier / 256) as u8,
        (identifier % 256) as u8,
        (sequence / 256) as u8,
        (sequence % 256) as u8,
    ]
}

/// A complete echo packet: the checksum is taken over header and payload
/// with the checksum field zeroed.
pub open spec fn echo_packet(icmp_type: u8, identifier: u16, sequence: u16, payload: Seq<u8>) -> Seq<u8> {
    let zeroed = echo_header(icmp_type, 0, 0, identifier, sequence) + payload;
    echo_header(icmp_type, 0, checksum_of(zeroed) as u16, identifier, sequence) + payload
}

/// The bytes of an ICMPv4 Echo Request.
pub open spec fn request_packet(identifier: u16, sequence: u16, payload: Seq<u8>) -> Seq<u8> {
    echo_packet(ECHO_REQUEST, identifier, sequence, payload)
}

/// Echo request and reply types of ICMPv4 and ICMPv6.
pub open spec fn is_echo_type(t: u8) -> bool {
    t == ECHO_REPLY || t == ECHO_REQUEST || t == ECHO_REQUEST_V6 || t == ECHO_REPLY_V6
}

/// The big-endian 16-bit field at `i`.
pub open spec fn field16(s: Seq<u8>, i: int) -> nat {
    (s[i] as nat) * 256 + (s[i + 1] as nat)
}

/// A checksum verifies when the folded sum over the whole packet is 0xFFFF.
pub open spec fn checksum_valid(s: Seq<u8>) -> bool {
    checksum_of(s) == 0
}

/// `s` decodes to an echo packet.
pub open spec fn decodes(s: Seq<u8>) -> bool {
    s.len() >= HEADER_LEN && checksum_valid(s) && is_echo_type(s[0])
}

/// Builds an ICMPv4 Echo Request carrying `payload`.
pub fn encode_request(identifier: u16, sequence: u16, payload: &[u8]) -> (r: Result<Vec<u8>, EncodingError>)
    ensures
        r is Ok <==> payload@.len() <= MAX_PAYLOAD,
        r is Err ==> r == Err::<Vec<u8>, EncodingError>(EncodingError::PayloadTooLarge),
        r matches Ok(v) ==> v@ == request_packet(identifier, sequence, payload@),
{
    if payload.len() > MAX_PAYLOAD {
        return Err(EncodingError::PayloadTooLarge);
    }
    Ok(encode_echo(ECHO_REQUEST, identifier, sequence, payload))
}

/// Builds an echo packet of the given type; no size limit is applied.
pub fn encode_echo(icmp_type: u8, identifier: u16, sequence: u16, payload: &[u8]) -> (r: Vec<u8>)
    ensures
        r@ == echo_packet(icmp_type, identifier, sequence, payload@),
{
    let mut v: Vec<u8> = Vec::new();
    v.push(icmp_type);
    v.push(0);
    v.push(0);
    v.push(0);
    v.push((identifier / 256) as u8);
    v.push((identifier % 256) as u8);
    v.push((sequence / 256) as u8);
    v.push((sequence % 256) as u8);
    let ghost head = echo_header(icmp_type, 0, 0, identifier, sequence);
    assert(v@ =~= head);
    let mut i: usize = 0;
    while i < payload.len()
        invariant
            i <= payload@.len(),
            v@ == head + payload@.subrange(0, i as int),
        decreases payload@.len() - i,
    {
        v.push(payload[i]);
        i = i + 1;
        assert(v@ =~= head + payload@.subrange(0, i as int));
    }
    assert(payload@.subrange(0, i as int) =~= payload@);
    let c = checksum(v.as_slice());
    v.set(2, (c / 256) as u8);
    v.set(3, (c % 256) as u8);
    assert(v@ =~= echo_packet(icmp_type, identifier, sequence, payload@));
    v
}

/// Parses `bytes` as an echo packet and checks its checksum.
///
/// The checksum is the plain RFC 1071 sum over the ICMP bytes, as ICMPv4
/// defines it. An ICMPv6 checksum also covers an IPv6 pseudo-header that
/// these bytes do not hold, so a genuine ICMPv6 echo is in general reported
/// as `ChecksumMismatch`: this decoder is for ICMPv4 traffic.
pub fn decode(bytes: &[u8]) -> (r: Result<EchoPacket, DecodeError>)
    ensures
        r is Ok <==> decodes(bytes@),
        r == Err::<EchoPacket, DecodeError>(DecodeError::Truncated) <==> bytes@.len() < HEADER_LEN,
        r == Err::<EchoPacket, DecodeError>(DecodeError::ChecksumMismatch) <==> bytes@.len() >= HEADER_LEN
            && !checksum_valid(bytes@),
        r matches Err(DecodeError::UnsupportedType { icmp_type, code }) <==> bytes@.len() >= HEADER_LEN
            && checksum_valid(bytes@) && !is_echo_type(bytes@[0]),
        r matches Err(DecodeError::UnsupportedType { icmp_type, code }) ==> icmp_type == bytes@[0]
            && code == bytes@[1],
        r matches Ok(p) ==> p.icmp_type == bytes@[0] && p.code == bytes@[1] && p.checksum == field16(
            bytes@,
            2,
        ) && p.identifier == field16(bytes@, 4) && p.sequence == field16(bytes@, 6) && p.payload@
            == bytes@.subrange(HEADER_LEN as int, bytes@.len() as int),
{
    let n = bytes.len();
    if n < HEADER_LEN {
        return Err(DecodeError::Truncated);
    }
    if checksum(bytes) != 0 {
        return Err(DecodeError::ChecksumMismatch);
    }
    let t = bytes[0];
    let code = bytes[1];
    if !(t == ECHO_REPLY || t == ECHO_REQUEST || t == ECHO_REQUEST_V6 || t == ECHO_REPLY_V6) {
        return Err(DecodeError::UnsupportedType { icmp_type: t, code });
    }
    let mut payload: Vec<u8> = Vec::new();
    let mut i: usize = HEADER_LEN;
    while i < n
        invariant
            HEADER_LEN <= i <= n,
            n == bytes@.len(),
            payload@ == bytes@.subrange(HEADER_LEN as int, i as int),
        decreases n - i,
    {
        payload.push(bytes[i]);
        i = i + 1;
        assert(payload@ =~= bytes@.subrange(HEADER_LEN as int, i as int));
    }
    Ok(EchoPacket {
        icmp_type: t,
        code,
        checksum: bytes[2] as u16 * 256 + bytes[3] as u16,
        identifier: bytes[4] as u16 * 256 + bytes[5] as u16,
        sequence: bytes[6] as u16 * 256 + bytes[7] as u16,
        payload,
    })
}

/// The word sum of a sequence of at least four bytes splits after its
/// second word.
proof fn lemma_word_sum_two_words(s: Seq<u8>)
    requires
        s.len() >= 4,
    ensures
        word_sum(s) == (s[0] as nat) * 256 + (s[1] as nat) + (s[2] as nat) * 256 + (s[3] as nat)
            + word_sum(s.subrange(4, s.len() as int)),
{
    let t = s.subrange(2, s.len() as int);
    assert(t.subrange(2, t.len() as int) =~= s.subrange(4, s.len() as int));
    assert(word_sum(s) == (s[0] as nat) * 256 + (s[1] as nat) + word_sum(t));
    assert(word_sum(t) == (t[0] as nat) * 256 + (t[1] as nat) + word_sum(t.subrange(2, t.len() as int)));
}

/// Substituting the checksum of a packet into its zeroed checksum field
/// makes the folded word sum of the whole packet 0xFFFF.
pub proof fn lemma_checksum_completes(icmp_type: u8, identifier: u16, sequence: u16, payload: Seq<u8>)
    ensures
        fold_carries(word_sum(echo_packet(icmp_type, identifier, sequence, payload))) == 0xFFFF,
        checksum_valid(echo_packet(icmp_type, identifier, sequence, payload)),
{
    let zeroed = echo_header(icmp_type, 0, 0, identifier, sequence) + payload;
    let s = word_sum(zeroed);
    let c = checksum_of(zeroed);
    let full = echo_packet(icmp_type, identifier, sequence, payload);
    lemma_fold_residue(s);
    assert(c <= 0xFFFF);
    lemma_word_sum_two_words(zeroed);
    lemma_word_sum_two_words(full);
    assert(full.subrange(4, full.len() as int) =~= zeroed.subrange(4, zeroed.len() as int));
    lemma_fundamental_div_mod(c as int, 256);
    assert((c as u16) as nat == c);
    assert(word_sum(full) == s + c);
    let t = s + c;
    if s == 0 {
        assert(t == 0xFFFF);
    } else {
        let q = (s - 1) as nat / 0xFFFF;
        lemma_fundamental_div_mod((s - 1) as int, 0xFFFF);
        assert(t == 0xFFFF * q + 0xFFFF);
        assert((t - 1) as int == 0xFFFF * q + 0xFFFE);
        lemma_mod_multiples_vanish(q as int, 0xFFFE, 0xFFFF);
    }
    lemma_fold_residue(t);
    assert(ones_residue(t) == 0xFFFF);
}

/// Decoding an encoded request succeeds and gives back its identifier,
/// sequence and payload.
pub proof fn lemma_round_trip(identifier: u16, sequence: u16, payload: Seq<u8>)
    ensures
        decodes(request_packet(identifier, sequence, payload)),
        request_packet(identifier, sequence, payload)[0] == ECHO_REQUEST,
        field16(request_packet(identifier, sequence, payload), 4) == identifier,
        field16(request_packet(identifier, sequence, payload), 6) == sequence,
        request_packet(identifier, sequence, payload).subrange(
            HEADER_LEN as int,
            request_packet(identifier, sequence, payload).len() as int,
        ) == payload,
{
    let b = request_packet(identifier, sequence, payload);
    lemma_checksum_completes(ECHO_REQUEST, identifier, sequence, payload);
    lemma_fundamental_div_mod(identifier as int, 256);
    lemma_fundamental_div_mod(sequence as int, 256);
    assert(b.subrange(HEADER_LEN as int, b.len() as int) =~= payload);
}

/// An Echo header followed by an 8-byte send timestamp.
#[derive(Debug, Clone, Copy)]
pub struct Packet {
    pub icmp_type: u8,
    pub icmp_code: u8,
    pub icmp_chksum: u16,
    pub icmp_identifier: u16,
    pub icmp_seq_number: u16,
    pub icmp_timestamp: [u8; 8],
}

impl Packet {
    /// The packet's bytes on the wire.
    pub open spec fn bytes(&self) -> Seq<u8> {
        echo_header(
            self.icmp_type,
            self.icmp_code,
            self.icmp_chksum,
            self.icmp_identifier,
            self.icmp_seq_number,
        ) + self.icmp_timestamp@
    }

    /// An Echo Request whose payload is `timestamp`, with its checksum filled in.
    pub fn request(identifier: u16, sequence: u16, timestamp: [u8; 8]) -> (p: Packet)
        ensures
            p.icmp_type == ECHO_REQUEST,
            p.icmp_code == 0,
            p.icmp_identifier == identifier,
            p.icmp_seq_number == sequence,
            p.icmp_timestamp == timestamp,
            p.bytes() == request_packet(identifier, sequence, timestamp@),
    {
        let v = encode_echo(ECHO_REQUEST, identifier, sequence, timestamp.as_slice());
        let c: u16 = v[2] as u16 * 256 + v[3] as u16;
        let p = Packet {
            icmp_type: ECHO_REQUEST,
            icmp_code: 0,
            icmp_chksum: c,
            icmp_identifier: identifier,
            icmp_seq_number: sequence,
            icmp_timestamp: timestamp,
        };
        proof {
            let zeroed = echo_header(ECHO_REQUEST, 0, 0, identifier, sequence) + timestamp@;
            lemma_fold_residue(word_sum(zeroed));
            let k = checksum_of(zeroed) as u16;
            lemma_fundamental_div_mod(k as int, 256);
            assert(c == k);
            assert(p.bytes() =~= request_packet(identifier, sequence, timestamp@));
        }
        p
    }

    /// Serialises the packet field by field.
    pub fn to_bytes(&self) -> (r: Vec<u8>)
        ensures
            r@ == self.bytes(),
    {
        let mut v: Vec<u8> = Vec::new();
        v.push(self.icmp_type);
        v.push(self.icmp_code);
        v.push((self.icmp_chksum / 256) as u8);
        v.push((self.icmp_chksum % 256) as u8);
        v.push((self.icmp_identifier / 256) as u8);
        v.push((self.icmp_identifier % 256) as u8);
        v.push((self.icmp_seq_number / 256) as u8);
        v.push((self.icmp_seq_number % 256) as u8);
        let mut i: usize = 0;
        while i < 8
            invariant
                i <= 8,
                v@ == echo_header(
                    self.icmp_type,
                    self.icmp_code,
                    self.icmp_chksum,
                    self.icmp_identifier,
                    self.icmp_seq_number,
                ) + self.icmp_timestamp@.subrange(0, i as int),
            decreases 8 - i,
        {
            v.push(self.icmp_timestamp[i]);
            i = i + 1;
            assert(v@ =~= echo_header(
                self.icmp_type,
                self.icmp_code,
                self.icmp_chksum,
                self.icmp_identifier,
                self.icmp_seq_number,
            ) + self.icmp_timestamp@.subrange(0, i as int));
        }
        assert(self.icmp_timestamp@.subrange(0, 8) =~= self.icmp_timestamp@);
        v
    }
}

} // verus!
