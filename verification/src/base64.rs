//! Standard base64 (RFC 4648 alphabet, `=` padding).
use vstd::prelude::*;
use crate::strings::string_push;

verus! {

/// The base64 alphabet entry for a 6-bit value.
pub open spec fn b64_char(v: u8) -> char {
    if v < 26 {
        (65 + v) as char
    } else if v < 52 {
        (97 + (v - 26)) as char
    } else if v < 62 {
        (48 + (v - 52)) as char
    } else if v == 62 {
        '+'
    } else {
        '/'
    }
}

/// The four output characters for the group that starts `s`
/// (one, two or three input bytes).
pub open spec fn encode_group(s: Seq<u8>) -> Seq<char> {
    let b0 = s[0];
    let b1 = if s.len() > 1 { s[1] } else { 0u8 };
    let b2 = if s.len() > 2 { s[2] } else { 0u8 };
    seq![
        b64_char(b0 >> 2u8),
        b64_char(((b0 & 3u8) << 4u8) | (b1 >> 4u8)),
        if s.len() > 1 { b64_char(((b1 & 0x0fu8) << 2u8) | (b2 >> 6u8)) } else { '=' },
        if s.len() > 2 { b64_char(b2 & 0x3fu8) } else { '=' },
    ]
}

/// Base64 encoding of `s`, group by group.
pub open spec fn spec_base64(s: Seq<u8>) -> Seq<char>
    decreases s.len(),
{
    if s.len() == 0 {
        seq![]
    } else if s.len() <= 3 {
        encode_group(s)
    } else {
        encode_group(s) + spec_base64(s.subrange(3, s.len() as int))
    }
}

/// True of the characters that base64 output is made of.
pub open spec fn is_base64_char(c: char) -> bool {
    ('A' <= c <= 'Z') || ('a' <= c <= 'z') || ('0' <= c <= '9') || c == '+' || c == '/' || c
        == '='
}

fn b64_char_exec(v: u8) -> (c: char)
    requires
        v < 64,
    ensures
        c == b64_char(v),
{
    if v < 26 {
        (65u8 + v) as char
    } else if v < 52 {
        (97u8 + (v - 26)) as char
    } else if v < 62 {
        (48u8 + (v - 52)) as char
    } else if v == 62 {
        '+'
    } else {
        '/'
    }
}

proof fn lemma_group_chars_below_64(b0: u8, b1: u8, b2: u8)
    ensures
        b0 >> 2u8 < 64,
        ((b0 & 3u8) << 4u8) | (b1 >> 4u8) < 64,
        ((b1 & 0x0fu8) << 2u8) | (b2 >> 6u8) < 64,
        b2 & 0x3fu8 < 64,
{
    assert(b0 >> 2u8 < 64) by (bit_vector);
    assert(((b0 & 3u8) << 4u8) | (b1 >> 4u8) < 64) by (bit_vector);
    assert(((b1 & 0x0fu8) << 2u8) | (b2 >> 6u8) < 64) by (bit_vector);
    assert(b2 & 0x3fu8 < 64) by (bit_vector);
}

/// Encode `input` as base64 with `=` padding.
pub fn base64_encode(input: &[u8]) -> (out: String)
    ensures
        out@ == spec_base64(input@),
{
    let n = input.len();
    let mut out = String::new();
    let mut i: usize = 0;
    assert(input@.subrange(0, n as int) =~= input@);
    assert(out@ + spec_base64(input@) =~= spec_base64(input@));
    while i < n
        invariant
            n == input@.len(),
            i <= n,
            spec_base64(input@) == out@ + spec_base64(input@.subrange(i as int, n as int)),
        decreases n - i,
    {
        let ghost rest = input@.subrange(i as int, n as int);
        let b0 = input[i];
        let b1 = if n - i > 1 {
            input[i + 1]
        } else {
            0u8
        };
        let b2 = if n - i > 2 {
            input[i + 2]
        } else {
            0u8
        };
        proof {
            lemma_group_chars_below_64(b0, b1, b2);
        }
        string_push(&mut out, b64_char_exec(b0 >> 2u8));
        string_push(&mut out, b64_char_exec(((b0 & 3u8) << 4u8) | (b1 >> 4u8)));
        if n - i > 1 {
            string_push(&mut out, b64_char_exec(((b1 & 0x0fu8) << 2u8) | (b2 >> 6u8)));
        } else {
            string_push(&mut out, '=');
        }
        if n - i > 2 {
            string_push(&mut out, b64_char_exec(b2 & 0x3fu8));
        } else {
            string_push(&mut out, '=');
        }
        let next = if n - i > 3 {
            i + 3
        } else {
            n
        };
        proof {
            assert(encode_group(rest) =~= seq![
                b64_char(b0 >> 2u8),
                b64_char(((b0 & 3u8) << 4u8) | (b1 >> 4u8)),
                if rest.len() > 1 { b64_char(((b1 & 0x0fu8) << 2u8) | (b2 >> 6u8)) } else { '=' },
                if rest.len() > 2 { b64_char(b2 & 0x3fu8) } else { '=' },
            ]);
            if rest.len() > 3 {
                assert(rest.subrange(3, rest.len() as int) =~= input@.subrange(
                    next as int,
                    n as int,
                ));
            } else {
                assert(input@.subrange(next as int, n as int) =~= Seq::<u8>::empty());
            }
        }
        i = next;
    }
    out
}

/// Every base64 output has four characters per started group of three
/// input bytes, all of them from the alphabet or `=`.
pub proof fn lemma_base64_shape(s: Seq<u8>)
    ensures
        spec_base64(s).len() == 4 * ((s.len() + 2) / 3),
        forall|i: int| 0 <= i < spec_base64(s).len() ==> is_base64_char(#[trigger] spec_base64(s)[i]),
    decreases s.len(),
{
    if s.len() > 0 {
        let b0 = s[0];
        let b1 = if s.len() > 1 { s[1] } else { 0u8 };
        let b2 = if s.len() > 2 { s[2] } else { 0u8 };
        lemma_group_chars_below_64(b0, b1, b2);
        assert forall|v: u8| v < 64 implies is_base64_char(#[trigger] b64_char(v)) by {}
        if s.len() > 3 {
            lemma_base64_shape(s.subrange(3, s.len() as int));
        }
    }
}

/// How many `=` end the encoding of `n` bytes.
pub open spec fn padding_count(n: nat) -> int {
    if n % 3 == 0 {
        0
    } else {
        3 - (n % 3) as int
    }
}

/// The encoding ends in exactly `padding_count` `=` characters; no other
/// character is `=`.
pub proof fn lemma_base64_padding(s: Seq<u8>)
    ensures
        forall|i: int|
            0 <= i < spec_base64(s).len() ==> (#[trigger] spec_base64(s)[i] == '=') == (i
                >= spec_base64(s).len() - padding_count(s.len())),
    decreases s.len(),
{
    lemma_base64_shape(s);
    if s.len() > 0 {
        let b0 = s[0];
        let b1 = if s.len() > 1 { s[1] } else { 0u8 };
        let b2 = if s.len() > 2 { s[2] } else { 0u8 };
        lemma_group_chars_below_64(b0, b1, b2);
        lemma_b64_value(b0 >> 2u8);
        lemma_b64_value(((b0 & 3u8) << 4u8) | (b1 >> 4u8));
        lemma_b64_value(((b1 & 0x0fu8) << 2u8) | (b2 >> 6u8));
        lemma_b64_value(b2 & 0x3fu8);
        if s.len() > 3 {
            let rest = s.subrange(3, s.len() as int);
            lemma_base64_padding(rest);
            lemma_base64_shape(rest);
            assert(padding_count(rest.len()) == padding_count(s.len()));
            assert forall|i: int| 0 <= i < spec_base64(s).len() implies (#[trigger] spec_base64(s)[i]
                == '=') == (i >= spec_base64(s).len() - padding_count(s.len())) by {
                if i >= 4 {
                    assert(spec_base64(s)[i] == spec_base64(rest)[i - 4]);
                }
            }
        }
    }
}

/// The 6-bit value of a base64 alphabet character.
pub open spec fn b64_value(c: char) -> u8 {
    if 'A' <= c <= 'Z' {
        (c as u32 - 65) as u8
    } else if 'a' <= c <= 'z' {
        (c as u32 - 97 + 26) as u8
    } else if '0' <= c <= '9' {
        (c as u32 - 48 + 52) as u8
    } else if c == '+' {
        62
    } else {
        63
    }
}

/// The bytes of one group of four characters (RFC 4648, section 4): one,
/// two or three, as the `=` padding says.
pub open spec fn decode_group(g: Seq<char>) -> Seq<u8> {
    let v0 = b64_value(g[0]);
    let v1 = b64_value(g[1]);
    let v2 = b64_value(g[2]);
    let v3 = b64_value(g[3]);
    let b0 = ((v0 << 2u8) | (v1 >> 4u8)) as u8;
    let b1 = (((v1 & 0x0fu8) << 4u8) | (v2 >> 2u8)) as u8;
    let b2 = (((v2 & 3u8) << 6u8) | v3) as u8;
    if g[2] == '=' {
        seq![b0]
    } else if g[3] == '=' {
        seq![b0, b1]
    } else {
        seq![b0, b1, b2]
    }
}

/// Base64 decoding, group by group.
pub open spec fn spec_base64_decode(s: Seq<char>) -> Seq<u8>
    decreases s.len(),
{
    if s.len() < 4 {
        seq![]
    } else {
        decode_group(s.take(4)) + spec_base64_decode(s.skip(4))
    }
}

proof fn lemma_b64_value(v: u8)
    requires
        v < 64,
    ensures
        b64_value(b64_char(v)) == v,
        b64_char(v) != '=',
{
}

proof fn lemma_group_bits(b0: u8, b1: u8, b2: u8)
    ensures
        (((b0 >> 2u8) << 2u8) | ((((b0 & 3u8) << 4u8) | (b1 >> 4u8)) >> 4u8)) == b0,
        ((((((b0 & 3u8) << 4u8) | (b1 >> 4u8)) & 0x0fu8) << 4u8) | ((((b1 & 0x0fu8) << 2u8) | (
        b2 >> 6u8)) >> 2u8)) == b1,
        ((((((b1 & 0x0fu8) << 2u8) | (b2 >> 6u8)) & 3u8) << 6u8) | (b2 & 0x3fu8)) == b2,
{
    assert((((b0 >> 2u8) << 2u8) | ((((b0 & 3u8) << 4u8) | (b1 >> 4u8)) >> 4u8)) == b0)
        by (bit_vector);
    assert(((((((b0 & 3u8) << 4u8) | (b1 >> 4u8)) & 0x0fu8) << 4u8) | ((((b1 & 0x0fu8) << 2u8) | (
    b2 >> 6u8)) >> 2u8)) == b1) by (bit_vector);
    assert(((((((b1 & 0x0fu8) << 2u8) | (b2 >> 6u8)) & 3u8) << 6u8) | (b2 & 0x3fu8)) == b2)
        by (bit_vector);
}

/// Decoding one encoded group gives back its bytes.
proof fn lemma_group_roundtrip(s: Seq<u8>)
    requires
        1 <= s.len(),
    ensures
        decode_group(encode_group(s)) == s.take(if s.len() < 3 { s.len() as int } else { 3 }),
{
    let b0 = s[0];
    let b1 = if s.len() > 1 { s[1] } else { 0u8 };
    let b2 = if s.len() > 2 { s[2] } else { 0u8 };
    lemma_group_chars_below_64(b0, b1, b2);
    lemma_b64_value(b0 >> 2u8);
    lemma_b64_value(((b0 & 3u8) << 4u8) | (b1 >> 4u8));
    lemma_b64_value(((b1 & 0x0fu8) << 2u8) | (b2 >> 6u8));
    lemma_b64_value(b2 & 0x3fu8);
    lemma_group_bits(b0, b1, b2);
    let g = encode_group(s);
    let n: int = if s.len() < 3 { s.len() as int } else { 3 };
    assert(decode_group(g) =~= s.take(n));
}

/// Base64 loses and changes nothing: decoding the encoding of any bytes
/// gives them back.
pub proof fn lemma_base64_roundtrip(s: Seq<u8>)
    ensures
        spec_base64_decode(spec_base64(s)) == s,
    decreases s.len(),
{
    if s.len() == 0 {
        assert(spec_base64_decode(spec_base64(s)) =~= s);
    } else {
        lemma_group_roundtrip(s);
        let e = spec_base64(s);
        let g = encode_group(s);
        if s.len() <= 3 {
            assert(e.take(4) =~= g);
            assert(e.skip(4) =~= Seq::<char>::empty());
            assert(spec_base64_decode(Seq::<char>::empty()) =~= Seq::<u8>::empty());
            assert(s.take(s.len() as int) =~= s);
            assert(spec_base64_decode(e) =~= s);
        } else {
            let rest = s.subrange(3, s.len() as int);
            lemma_base64_roundtrip(rest);
            assert(e.take(4) =~= g);
            assert(e.skip(4) =~= spec_base64(rest));
            assert(s.take(3) + rest =~= s);
        }
    }
}

} // verus!
