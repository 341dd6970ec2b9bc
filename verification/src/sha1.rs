//! SHA-1 (FIPS 180-4), used to derive the `Sec-WebSocket-Accept` key.
use vstd::prelude::*;

verus! {

/// Chaining state: the five 32-bit words `(h0, h1, h2, h3, h4)`.
pub type Sha1State = (u32, u32, u32, u32, u32);

pub open spec fn rotl1(x: u32) -> u32 {
    (x << 1u32) | (x >> 31u32)
}

pub open spec fn rotl5(x: u32) -> u32 {
    (x << 5u32) | (x >> 27u32)
}

pub open spec fn rotl30(x: u32) -> u32 {
    (x << 30u32) | (x >> 2u32)
}

/// Big-endian word from four bytes.
pub open spec fn be_word(b0: u8, b1: u8, b2: u8, b3: u8) -> u32 {
    ((b0 as u32) << 24u32) | ((b1 as u32) << 16u32) | ((b2 as u32) << 8u32) | (b3 as u32)
}

/// Big-endian bytes of a word.
pub open spec fn word_bytes(w: u32) -> Seq<u8> {
    seq![(w >> 24u32) as u8, (w >> 16u32) as u8, (w >> 8u32) as u8, w as u8]
}

/// Big-endian bytes of a 64-bit value.
pub open spec fn u64_be_bytes(v: u64) -> Seq<u8> {
    seq![
        (v >> 56u64) as u8,
        (v >> 48u64) as u8,
        (v >> 40u64) as u8,
        (v >> 32u64) as u8,
        (v >> 24u64) as u8,
        (v >> 16u64) as u8,
        (v >> 8u64) as u8,
        v as u8,
    ]
}

/// Number of zero bytes that follow the `0x80` marker so that the padded
/// length is 56 modulo 64.
pub open spec fn padding_zeros(n: nat) -> nat {
    ((119 - (n % 64)) % 64) as nat
}

/// The padded message: input, `0x80`, zeros, and the bit length (big endian).
pub open spec fn sha1_pad(input: Seq<u8>) -> Seq<u8> {
    input.push(0x80u8) + Seq::new(padding_zeros(input.len()), |i: int| 0u8) + u64_be_bytes(
        (input.len() * 8) as u64,
    )
}

/// Word `t` of the message schedule of a 64-byte block.
pub open spec fn schedule_word(block: Seq<u8>, t: nat) -> u32
    decreases t,
{
    if t < 16 {
        be_word(
            block[4 * t as int],
            block[4 * t as int + 1],
            block[4 * t as int + 2],
            block[4 * t as int + 3],
        )
    } else {
        rotl1(
            schedule_word(block, (t - 3) as nat) ^ schedule_word(block, (t - 8) as nat)
                ^ schedule_word(block, (t - 14) as nat) ^ schedule_word(block, (t - 16) as nat),
        )
    }
}

/// The 80-word message schedule of a 64-byte block.
pub open spec fn schedule(block: Seq<u8>) -> Seq<u32> {
    Seq::new(80, |t: int| schedule_word(block, t as nat))
}

/// Round function and constant of round `t`.
pub open spec fn round_f(t: nat, b: u32, c: u32, d: u32) -> u32 {
    if t < 20 {
        (b & c) | (!b & d)
    } else if t < 40 {
        b ^ c ^ d
    } else if t < 60 {
        (b & c) | (b & d) | (c & d)
    } else {
        b ^ c ^ d
    }
}

pub open spec fn round_k(t: nat) -> u32 {
    if t < 20 {
        0x5A827999u32
    } else if t < 40 {
        0x6ED9EBA1u32
    } else if t < 60 {
        0x8F1BBCDCu32
    } else {
        0xCA62C1D6u32
    }
}

/// One round applied to the working variables.
pub open spec fn round(s: Sha1State, t: nat, wt: u32) -> Sha1State {
    let temp = rotl5(s.0).wrapping_add(round_f(t, s.1, s.2, s.3)).wrapping_add(s.4).wrapping_add(
        round_k(t),
    ).wrapping_add(wt);
    (temp, s.0, rotl30(s.1), s.2, s.3)
}

/// Working variables after the first `t` rounds over the schedule `w`.
pub open spec fn rounds(h: Sha1State, w: Seq<u32>, t: nat) -> Sha1State
    decreases t,
{
    if t == 0 {
        h
    } else {
        round(rounds(h, w, (t - 1) as nat), (t - 1) as nat, w[t - 1])
    }
}

/// The compression function given a message schedule.
pub open spec fn compress_words(h: Sha1State, w: Seq<u32>) -> Sha1State {
    let s = rounds(h, w, 80);
    (
        h.0.wrapping_add(s.0),
        h.1.wrapping_add(s.1),
        h.2.wrapping_add(s.2),
        h.3.wrapping_add(s.3),
        h.4.wrapping_add(s.4),
    )
}

pub open spec fn sha1_initial() -> Sha1State {
    (0x67452301u32, 0xEFCDAB89u32, 0x98BADCFEu32, 0x10325476u32, 0xC3D2E1F0u32)
}

/// State after hashing the first `i` 64-byte blocks of `msg`.
pub open spec fn sha1_blocks(msg: Seq<u8>, i: nat) -> Sha1State
    decreases i,
{
    if i == 0 {
        sha1_initial()
    } else {
        compress_words(
            sha1_blocks(msg, (i - 1) as nat),
            schedule(msg.subrange(64 * (i - 1), 64 * i as int)),
        )
    }
}

pub open spec fn state_bytes(h: Sha1State) -> Seq<u8> {
    word_bytes(h.0) + word_bytes(h.1) + word_bytes(h.2) + word_bytes(h.3) + word_bytes(h.4)
}

/// The SHA-1 digest of `input`.
pub open spec fn spec_sha1(input: Seq<u8>) -> Seq<u8> {
    let p = sha1_pad(input);
    state_bytes(sha1_blocks(p, p.len() / 64))
}

/// Inputs whose bit length fits the 64-bit length field of the padding.
pub open spec fn sha1_input_ok(n: nat) -> bool {
    n * 8 <= u64::MAX && n + 72 <= usize::MAX
}

proof fn lemma_pad_len(n: nat)
    ensures
        (n + 1 + padding_zeros(n) + 8) % 64 == 0,
{
    let r = n % 64;
    assert(n == 64 * (n / 64) + r);
    if r <= 55 {
        assert(padding_zeros(n) == 55 - r);
    } else {
        assert(padding_zeros(n) == 119 - r);
    }
    assert((n + 1 + padding_zeros(n) + 8) == 64 * (n / 64) + 64 || (n + 1 + padding_zeros(n) + 8)
        == 64 * (n / 64) + 128);
}

fn pad_message(input: &[u8]) -> (msg: Vec<u8>)
    requires
        sha1_input_ok(input@.len()),
    ensures
        msg@ == sha1_pad(input@),
        msg@.len() % 64 == 0,
{
    let n = input.len();
    let bit_len: u64 = (n as u64) * 8;
    let mut msg: Vec<u8> = Vec::new();
    let mut i: usize = 0;
    while i < n
        invariant
            n == input@.len(),
            i <= n,
            msg@ == input@.subrange(0, i as int),
        decreases n - i,
    {
        msg.push(input[i]);
        i = i + 1;
    }
    assert(input@.subrange(0, n as int) =~= input@);
    msg.push(0x80u8);
    let zeros: usize = (119 - n % 64) % 64;
    assert(zeros == padding_zeros(n as nat));
    let ghost base = msg@;
    let mut k: usize = 0;
    while k < zeros
        invariant
            k <= zeros,
            zeros < 64,
            n + 72 <= usize::MAX,
            msg@.len() == n + 1 + k,
            msg@ =~= base + Seq::new(k as nat, |j: int| 0u8),
        decreases zeros - k,
    {
        msg.push(0u8);
        k = k + 1;
    }
    msg.push((bit_len >> 56u64) as u8);
    msg.push((bit_len >> 48u64) as u8);
    msg.push((bit_len >> 40u64) as u8);
    msg.push((bit_len >> 32u64) as u8);
    msg.push((bit_len >> 24u64) as u8);
    msg.push((bit_len >> 16u64) as u8);
    msg.push((bit_len >> 8u64) as u8);
    msg.push(bit_len as u8);
    assert(msg@ =~= sha1_pad(input@));
    proof {
        lemma_pad_len(n as nat);
    }
    msg
}

fn message_schedule(msg: &Vec<u8>, start: usize) -> (w: Vec<u32>)
    requires
        start + 64 <= msg@.len(),
    ensures
        w@ =~= schedule(msg@.subrange(start as int, start + 64)),
{
    let ghost block = msg@.subrange(start as int, start + 64);
    let mut w: Vec<u32> = Vec::new();
    let mut t: usize = 0;
    while t < 16
        invariant
            t <= 16,
            start + 64 <= msg.len(),
            block == msg@.subrange(start as int, start + 64),
            w@.len() == t,
            forall|j: int| 0 <= j < t ==> w@[j] == schedule_word(block, j as nat),
        decreases 16 - t,
    {
        let p = start + 4 * t;
        let word = ((msg[p] as u32) << 24u32) | ((msg[p + 1] as u32) << 16u32) | ((msg[p + 2]
            as u32) << 8u32) | (msg[p + 3] as u32);
        assert(word == schedule_word(block, t as nat));
        w.push(word);
        t = t + 1;
    }
    while t < 80
        invariant
            16 <= t <= 80,
            w@.len() == t,
            forall|j: int| 0 <= j < t ==> w@[j] == schedule_word(block, j as nat),
        decreases 80 - t,
    {
        let x = w[t - 3] ^ w[t - 8] ^ w[t - 14] ^ w[t - 16];
        let word = (x << 1u32) | (x >> 31u32);
        assert(word == schedule_word(block, t as nat));
        w.push(word);
        t = t + 1;
    }
    w
}

fn compress(h: Sha1State, w: &Vec<u32>) -> (r: Sha1State)
    requires
        w@.len() == 80,
    ensures
        r == compress_words(h, w@),
{
    let mut a = h.0;
    let mut b = h.1;
    let mut c = h.2;
    let mut d = h.3;
    let mut e = h.4;
    let mut t: usize = 0;
    while t < 80
        invariant
            t <= 80,
            w@.len() == 80,
            (a, b, c, d, e) == rounds(h, w@, t as nat),
        decreases 80 - t,
    {
        let f: u32;
        let k: u32;
        if t < 20 {
            f = (b & c) | (!b & d);
            k = 0x5A827999u32;
        } else if t < 40 {
            f = b ^ c ^ d;
            k = 0x6ED9EBA1u32;
        } else if t < 60 {
            f = (b & c) | (b & d) | (c & d);
            k = 0x8F1BBCDCu32;
        } else {
            f = b ^ c ^ d;
            k = 0xCA62C1D6u32;
        }
        let temp = ((a << 5u32) | (a >> 27u32)).wrapping_add(f).wrapping_add(e).wrapping_add(
            k,
        ).wrapping_add(w[t]);
        e = d;
        d = c;
        c = (b << 30u32) | (b >> 2u32);
        b = a;
        a = temp;
        t = t + 1;
    }
    (
        h.0.wrapping_add(a),
        h.1.wrapping_add(b),
        h.2.wrapping_add(c),
        h.3.wrapping_add(d),
        h.4.wrapping_add(e),
    )
}

/// SHA-1 digest of `input`.
pub fn sha1_digest(input: &[u8]) -> (digest: [u8; 20])
    requires
        sha1_input_ok(input@.len()),
    ensures
        digest@ == spec_sha1(input@),
{
    let msg = pad_message(input);
    let nblocks = msg.len() / 64;
    let mut h: Sha1State = (0x67452301u32, 0xEFCDAB89u32, 0x98BADCFEu32, 0x10325476u32, 0xC3D2E1F0u32);
    let mut i: usize = 0;
    while i < nblocks
        invariant
            i <= nblocks,
            nblocks == msg.len() / 64,
            msg@.len() % 64 == 0,
            h == sha1_blocks(msg@, i as nat),
        decreases nblocks - i,
    {
        assert(i * 64 + 64 <= msg@.len()) by (nonlinear_arith)
            requires
                i < nblocks,
                nblocks == msg.len() / 64,
        ;
        let w = message_schedule(&msg, i * 64);
        assert(msg@.subrange(64 * i, 64 * (i + 1)) == msg@.subrange((i * 64) as int, i * 64 + 64));
        h = compress(h, &w);
        i = i + 1;
    }
    let out: [u8; 20] = [
        (h.0 >> 24u32) as u8,
        (h.0 >> 16u32) as u8,
        (h.0 >> 8u32) as u8,
        h.0 as u8,
        (h.1 >> 24u32) as u8,
        (h.1 >> 16u32) as u8,
        (h.1 >> 8u32) as u8,
        h.1 as u8,
        (h.2 >> 24u32) as u8,
        (h.2 >> 16u32) as u8,
        (h.2 >> 8u32) as u8,
        h.2 as u8,
        (h.3 >> 24u32) as u8,
        (h.3 >> 16u32) as u8,
        (h.3 >> 8u32) as u8,
        h.3 as u8,
        (h.4 >> 24u32) as u8,
        (h.4 >> 16u32) as u8,
        (h.4 >> 8u32) as u8,
        h.4 as u8,
    ];
    assert(out@ =~= state_bytes(h));
    out
}

} // verus!
