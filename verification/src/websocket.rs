//! Websocket frames (RFC 6455): the server's frame header, the client's
//! masked frame header, unmasking, close payloads, and how the server answers
//! control frames.
use vstd::prelude::*;
use vstd::string::StringSliceAdditionalSpecFns;

verus! {

pub const OPCODE_BINARY: u8 = 0x2;
pub const OPCODE_CLOSE: u8 = 0x8;
pub const OPCODE_PING: u8 = 0x9;
pub const OPCODE_PONG: u8 = 0xA;

/// Largest payload of a control frame, and the length a 7-bit length field
/// holds directly.
pub const MAX_SHORT_LEN: u64 = 125;

pub open spec fn be16_bytes(v: u16) -> Seq<u8> {
    seq![(v >> 8u16) as u8, v as u8]
}

pub open spec fn be64_bytes(v: u64) -> Seq<u8> {
    seq![
        (v >> 56u64) as u8,
        (v >> 48u64) as u8,
        (v >> 40u64) as u8,
        (v >> 32u64) as u8,
        (v >> 24u64) as u8,
        (v >> 16u64) as u8,
        (v >> 8u64) as u8,
        v as u8,
    ]
}

/// Header of an unmasked (server) frame: FIN set, the opcode's low four
/// bits, and the payload length in the shortest of the three encodings.
pub open spec fn spec_frame_header(opcode: u8, len: u64) -> Seq<u8> {
    seq![0x80u8 | (opcode & 0x0Fu8)] + if len <= 125 {
        seq![len as u8]
    } else if len <= 65535 {
        seq![126u8] + be16_bytes(len as u16)
    } else {
        seq![127u8] + be64_bytes(len)
    }
}

/// The header that precedes a server frame with `len` payload bytes.
pub fn frame_header(opcode: u8, len: usize) -> (out: Vec<u8>)
    ensures
        out@ == spec_frame_header(opcode, len as u64),
{
    let mut out: Vec<u8> = Vec::new();
    out.push(0x80u8 | (opcode & 0x0Fu8));
    let l = len as u64;
    if l <= 125 {
        out.push(l as u8);
    } else if l <= 65535 {
        let s = l as u16;
        out.push(126u8);
        out.push((s >> 8u16) as u8);
        out.push(s as u8);
    } else {
        out.push(127u8);
        out.push((l >> 56u64) as u8);
        out.push((l >> 48u64) as u8);
        out.push((l >> 40u64) as u8);
        out.push((l >> 32u64) as u8);
        out.push((l >> 24u64) as u8);
        out.push((l >> 16u64) as u8);
        out.push((l >> 8u64) as u8);
        out.push(l as u8);
    }
    assert(out@ =~= spec_frame_header(opcode, len as u64));
    out
}

/// A whole server frame: header, then the payload unmasked.
pub fn encode_frame(opcode: u8, payload: &[u8]) -> (out: Vec<u8>)
    ensures
        out@ == spec_frame_header(opcode, payload@.len() as u64) + payload@,
{
    let mut out = frame_header(opcode, payload.len());
    let ghost head = out@;
    let mut i: usize = 0;
    while i < payload.len()
        invariant
            i <= payload@.len(),
            out@ == head + payload@.subrange(0, i as int),
        decreases payload@.len() - i,
    {
        out.push(payload[i]);
        assert(payload@.subrange(0, i + 1) =~= payload@.subrange(0, i as int).push(
            payload@[i as int],
        ));
        i = i + 1;
    }
    assert(payload@.subrange(0, payload@.len() as int) =~= payload@);
    out
}

/// Why a client frame was refused.
#[derive(Debug, PartialEq, Eq, Clone, Copy)]
pub enum FrameError {
    /// Client frames must be masked.
    NotMasked,
    /// A control frame carried more than 125 payload bytes.
    ControlFrameTooLarge,
}

/// Close (0x8), ping (0x9) and pong (0xA) are control frames.
pub open spec fn is_control(opcode: u8) -> bool {
    0x8 <= opcode <= 0xA
}

/// Number of extended length bytes announced by the 7-bit length code.
pub open spec fn ext_len_bytes(b1: u8) -> nat {
    let code = b1 & 0x7Fu8;
    if code <= 125 {
        0
    } else if code == 126 {
        2
    } else {
        8
    }
}

/// Bytes in a client frame header (two fixed, the extended length, the mask).
pub open spec fn client_header_len(b1: u8) -> nat {
    2 + ext_len_bytes(b1) + 4
}

pub open spec fn is_masked(b1: u8) -> bool {
    b1 & 0x80u8 != 0
}

/// The payload length that a frame header announces.
pub open spec fn frame_len_field(h: Seq<u8>) -> u64 {
    let code = h[1] & 0x7Fu8;
    if code <= 125 {
        code as u64
    } else if code == 126 {
        (((h[2] as u16) << 8u16) | (h[3] as u16)) as u64
    } else {
        ((h[2] as u64) << 56u64) | ((h[3] as u64) << 48u64) | ((h[4] as u64) << 40u64) | ((
        h[5] as u64) << 32u64) | ((h[6] as u64) << 24u64) | ((h[7] as u64) << 16u64) | ((h[8]
            as u64) << 8u64) | (h[9] as u64)
    }
}

/// How many bytes the header of a client frame has, given its first two
/// bytes; an unmasked frame is refused.
pub fn client_frame_header_len(b0: u8, b1: u8) -> (r: Result<usize, FrameError>)
    ensures
        match r {
            Ok(n) => is_masked(b1) && n == client_header_len(b1),
            Err(e) => !is_masked(b1) && e == FrameError::NotMasked,
        },
{
    if b1 & 0x80u8 == 0 {
        return Err(FrameError::NotMasked);
    }
    let code = b1 & 0x7Fu8;
    if code <= 125 {
        Ok(6)
    } else if code == 126 {
        Ok(8)
    } else {
        Ok(14)
    }
}

/// A decoded client frame header.
#[derive(Debug, PartialEq, Eq, Clone, Copy)]
pub struct FrameHeader {
    pub opcode: u8,
    pub payload_len: u64,
    pub mask: [u8; 4],
}

/// Decodes a complete client frame header (`h` holds exactly its
/// `client_header_len` bytes); control frames longer than 125 bytes are refused.
pub fn parse_client_frame_header(h: &[u8]) -> (r: Result<FrameHeader, FrameError>)
    requires
        h@.len() >= 2,
        is_masked(h@[1]),
        h@.len() == client_header_len(h@[1]),
    ensures
        ({
            let opcode = h@[0] & 0x0Fu8;
            let len = frame_len_field(h@);
            match r {
                Ok(f) => {
                    &&& !(is_control(opcode) && len > 125)
                    &&& f.opcode == opcode
                    &&& f.payload_len == len
                    &&& f.mask@ == h@.subrange(h@.len() - 4, h@.len() as int)
                },
                Err(e) => is_control(opcode) && len > 125 && e == FrameError::ControlFrameTooLarge,
            }
        }),
{
    let opcode = h[0] & 0x0Fu8;
    let code = h[1] & 0x7Fu8;
    let len: u64 = if code <= 125 {
        code as u64
    } else if code == 126 {
        (((h[2] as u16) << 8u16) | (h[3] as u16)) as u64
    } else {
        ((h[2] as u64) << 56u64) | ((h[3] as u64) << 48u64) | ((h[4] as u64) << 40u64) | ((
        h[5] as u64) << 32u64) | ((h[6] as u64) << 24u64) | ((h[7] as u64) << 16u64) | ((h[8]
            as u64) << 8u64) | (h[9] as u64)
    };
    let n = h.len();
    let mask: [u8; 4] = [h[n - 4], h[n - 3], h[n - 2], h[n - 1]];
    assert(mask@ =~= h@.subrange(n - 4, n as int));
    if 0x8u8 <= opcode && opcode <= 0xAu8 && len > 125 {
        return Err(FrameError::ControlFrameTooLarge);
    }
    Ok(FrameHeader { opcode, payload_len: len, mask })
}

/// Whether the payload of a client frame is kept (control frames) or only
/// read and dropped.
pub fn keeps_payload(opcode: u8) -> (r: bool)
    ensures
        r == is_control(opcode),
{
    0x8u8 <= opcode && opcode <= 0xAu8
}

/// `payload` with each byte XORed with the mask byte at its index modulo 4.
pub open spec fn unmasked(payload: Seq<u8>, mask: Seq<u8>) -> Seq<u8> {
    Seq::new(payload.len(), |i: int| payload[i] ^ mask[i % 4])
}

/// Unmasks a client payload in place.
pub fn unmask(payload: &mut Vec<u8>, mask: [u8; 4])
    ensures
        final(payload)@ == unmasked(old(payload)@, mask@),
{
    let mut i: usize = 0;
    while i < payload.len()
        invariant
            i <= payload@.len(),
            payload@.len() == old(payload)@.len(),
            forall|j: int| 0 <= j < i ==> payload@[j] == old(payload)@[j] ^ mask@[j % 4],
            forall|j: int| i <= j < payload@.len() ==> payload@[j] == old(payload)@[j],
        decreases payload@.len() - i,
    {
        let b = payload[i] ^ mask[i % 4];
        payload.set(i, b);
        i = i + 1;
    }
    assert(payload@ =~= unmasked(old(payload)@, mask@));
}

/// Size of the next read when dropping `remaining` payload bytes through a
/// 4096-byte buffer.
pub fn drain_chunk_len(remaining: u64) -> (n: usize)
    requires
        remaining > 0,
    ensures
        n as u64 == (if remaining < 4096 { remaining } else { 4096 }),
        0 < n <= 4096,
{
    if remaining < 4096 {
        remaining as usize
    } else {
        4096
    }
}

/// Payload of a close frame: the status code (big endian) and at most 123
/// bytes of the reason.
pub open spec fn spec_close_payload(code: u16, reason: Seq<u8>) -> Seq<u8> {
    be16_bytes(code) + reason.take(if reason.len() < 123 { reason.len() as int } else { 123 })
}

pub fn close_payload(code: u16, reason: &str) -> (payload: Vec<u8>)
    ensures
        payload@ == spec_close_payload(code, reason.spec_bytes()),
        payload@.len() <= 125,
{
    let bytes = reason.as_bytes();
    let take = if bytes.len() < 123 {
        bytes.len()
    } else {
        123
    };
    let mut payload: Vec<u8> = Vec::new();
    payload.push((code >> 8u16) as u8);
    payload.push(code as u8);
    let mut i: usize = 0;
    while i < take
        invariant
            take <= bytes@.len(),
            take <= 123,
            i <= take,
            payload@ == be16_bytes(code) + bytes@.subrange(0, i as int),
        decreases take - i,
    {
        payload.push(bytes[i]);
        assert(bytes@.subrange(0, i + 1) =~= bytes@.subrange(0, i as int).push(bytes@[i as int]));
        i = i + 1;
    }
    assert(bytes@.subrange(0, take as int) =~= bytes@.take(take as int));
    payload
}

/// What the server does with a client frame while it streams.
#[derive(Debug, PartialEq, Eq, Clone, Copy)]
pub enum ClientFrameAction {
    /// Echo a close frame with the same payload, stop the command and
    /// shut the connection.
    Close,
    /// Answer with a pong carrying the same payload.
    Pong,
    /// Nothing to do.
    Ignore,
}

pub fn client_frame_action(opcode: u8) -> (a: ClientFrameAction)
    ensures
        a == (if opcode == OPCODE_CLOSE {
            ClientFrameAction::Close
        } else if opcode == OPCODE_PING {
            ClientFrameAction::Pong
        } else {
            ClientFrameAction::Ignore
        }),
{
    if opcode == OPCODE_CLOSE {
        ClientFrameAction::Close
    } else if opcode == OPCODE_PING {
        ClientFrameAction::Pong
    } else {
        ClientFrameAction::Ignore
    }
}

/// The length field that `frame_header` writes is read back as the same
/// length, and the opcode's low bits survive, by the decoding that client
/// frame headers use.
pub proof fn lemma_frame_header_roundtrip(opcode: u8, len: u64)
    ensures
        spec_frame_header(opcode, len)[0] & 0x0Fu8 == opcode & 0x0Fu8,
        spec_frame_header(opcode, len).len() == 2 + ext_len_bytes(spec_frame_header(opcode, len)[1]),
        frame_len_field(spec_frame_header(opcode, len)) == len,
{
    let h = spec_frame_header(opcode, len);
    let o = opcode;
    assert((0x80u8 | (o & 0x0Fu8)) & 0x0Fu8 == o & 0x0Fu8) by (bit_vector);
    if len <= 125 {
        let b = len as u8;
        assert(h[1] == b);
        assert(b & 0x7Fu8 == b) by (bit_vector)
            requires
                b <= 125,
        ;
    } else if len <= 65535 {
        let s = len as u16;
        assert(126u8 & 0x7Fu8 == 126u8) by (bit_vector);
        assert((((((s >> 8u16) as u8) as u16) << 8u16) | ((s as u8) as u16)) == s) by (bit_vector);
    } else {
        let v = len;
        assert(127u8 & 0x7Fu8 == 127u8) by (bit_vector);
        assert(((((v >> 56u64) as u8) as u64) << 56u64) | ((((v >> 48u64) as u8) as u64) << 48u64)
            | ((((v >> 40u64) as u8) as u64) << 40u64) | ((((v >> 32u64) as u8) as u64) << 32u64)
            | ((((v >> 24u64) as u8) as u64) << 24u64) | ((((v >> 16u64) as u8) as u64) << 16u64)
            | ((((v >> 8u64) as u8) as u64) << 8u64) | ((v as u8) as u64) == v) by (bit_vector);
    }
}

} // verus!
