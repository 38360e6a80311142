//! Standard base64 (RFC 4648 alphabet, `=` padding), as used to embed the
//! compiled module in a single HTML page.
use vstd::prelude::*;

use crate::text::push_char;

verus! {

/// The character that encodes the 6-bit value `v` (`A`–`Z`, `a`–`z`, `0`–`9`, `+`, `/`).
pub open spec fn sextet_char(v: int) -> char {
    if v < 26 {
        (65 + v) as char
    } else if v < 52 {
        (97 + (v - 26)) as char
    } else if v < 62 {
        (48 + (v - 52)) as char
    } else if v == 62 {
        '+'
    } else {
        '/'
    }
}

/// The four characters that encode the group of three bytes `b0 b1 b2`, where `n`
/// of them (1, 2 or 3) are real and the rest are zero fill.
pub open spec fn group_chars(b0: u8, b1: u8, b2: u8, n: int) -> Seq<char> {
    let c0 = sextet_char((b0 >> 2u8) as int);
    let c1 = sextet_char((((b0 & 3u8) << 4u8) | (b1 >> 4u8)) as int);
    let c2 = sextet_char((((b1 & 15u8) << 2u8) | (b2 >> 6u8)) as int);
    let c3 = sextet_char((b2 & 63u8) as int);
    seq![c0, c1, if n > 1 { c2 } else { '=' }, if n > 2 { c3 } else { '=' }]
}

/// The base64 text of `data`: each group of three bytes gives four characters;
/// a final group of one or two bytes is zero-filled and padded with `=`.
pub open spec fn base64_of(data: Seq<u8>) -> Seq<char>
    decreases data.len(),
{
    if data.len() == 0 {
        seq![]
    } else if data.len() == 1 {
        group_chars(data[0], 0, 0, 1)
    } else if data.len() == 2 {
        group_chars(data[0], data[1], 0, 2)
    } else {
        group_chars(data[0], data[1], data[2], 3) + base64_of(data.skip(3))
    }
}

/// Length of the base64 text of `n` bytes: four characters per started group of three.
pub open spec fn base64_len(n: nat) -> nat {
    ((n + 2) / 3 * 4) as nat
}

fn sextet(v: u32) -> (c: char)
    requires
        v < 64,
    ensures
        c == sextet_char(v as int),
{
    if v < 26 {
        ((v as u8) + 65u8) as char
    } else if v < 52 {
        ((v as u8) + 71u8) as char
    } else if v < 62 {
        ((v as u8) - 4u8) as char
    } else if v == 62 {
        '+'
    } else {
        '/'
    }
}

/// Encodes `data` as base64 text.
pub fn b64(data: &[u8]) -> (out: String)
    ensures
        out@ == base64_of(data@),
        out@.len() == base64_len(data@.len()),
{
    let mut out = String::new();
    let n = data.len();
    let mut i: usize = 0;
    proof {
        assert(data@.skip(0) == data@);
        lemma_base64_len(data@);
    }
    while i < n
        invariant
            n == data@.len(),
            i <= n,
            base64_of(data@) == out@ + base64_of(data@.skip(i as int)),
        decreases n - i,
    {
        let rest = n - i;
        let b0: u8 = data[i];
        let b1: u8 = if rest > 1 { data[i + 1] } else { 0 };
        let b2: u8 = if rest > 2 { data[i + 2] } else { 0 };
        let w: u32 = ((b0 as u32) << 16u32) | ((b1 as u32) << 8u32) | (b2 as u32);
        let v0: u32 = (w >> 18u32) & 63;
        let v1: u32 = (w >> 12u32) & 63;
        let v2: u32 = (w >> 6u32) & 63;
        let v3: u32 = w & 63;
        assert(v0 == (b0 >> 2u8) as u32 && v1 == (((b0 & 3u8) << 4u8) | (b1 >> 4u8)) as u32
            && v2 == (((b1 & 15u8) << 2u8) | (b2 >> 6u8)) as u32 && v3 == (b2 & 63u8) as u32
            && v0 < 64 && v1 < 64 && v2 < 64 && v3 < 64) by (bit_vector)
            requires
                w == ((b0 as u32) << 16u32) | ((b1 as u32) << 8u32) | (b2 as u32),
                v0 == (w >> 18u32) & 63,
                v1 == (w >> 12u32) & 63,
                v2 == (w >> 6u32) & 63,
                v3 == w & 63,
        ;
        let ghost before = out@;
        push_char(&mut out, sextet(v0));
        push_char(&mut out, sextet(v1));
        push_char(&mut out, if rest > 1 { sextet(v2) } else { '=' });
        push_char(&mut out, if rest > 2 { sextet(v3) } else { '=' });
        let step: usize = if rest > 3 { 3 } else { rest };
        proof {
            let tail = data@.skip(i as int);
            let k: int = if rest > 3 { 3 } else { rest as int };
            assert(out@ == before + group_chars(b0, b1, b2, k));
            if rest > 3 {
                assert(tail.skip(3) == data@.skip(i + 3));
                assert(base64_of(tail) == group_chars(tail[0], tail[1], tail[2], 3)
                    + base64_of(tail.skip(3)));
            } else {
                assert(data@.skip(i + step) =~= Seq::<u8>::empty());
                assert(tail[0] == b0);
                if rest == 1 {
                    assert(base64_of(tail) == group_chars(b0, 0, 0, 1));
                } else if rest == 2 {
                    assert(tail[1] == b1);
                    assert(base64_of(tail) == group_chars(b0, b1, 0, 2));
                } else {
                    assert(tail[1] == b1 && tail[2] == b2);
                    assert(tail.skip(3) =~= Seq::<u8>::empty());
                    assert(base64_of(tail) == group_chars(b0, b1, b2, 3) + base64_of(tail.skip(3)));
                }
            }
        }
        i = i + step;
    }
    out
}

/// The base64 text of `data` has four characters for each started group of three bytes.
pub proof fn lemma_base64_len(data: Seq<u8>)
    ensures
        base64_of(data).len() == base64_len(data.len()),
    decreases data.len(),
{
    if data.len() > 2 {
        lemma_base64_len(data.skip(3));
    }
}

/// Encoding is chunk-wise: splitting the input after a whole number of three-byte
/// groups splits the output at the corresponding point.
pub proof fn lemma_base64_concat(a: Seq<u8>, b: Seq<u8>)
    requires
        a.len() % 3 == 0,
    ensures
        base64_of(a + b) == base64_of(a) + base64_of(b),
    decreases a.len(),
{
    if a.len() == 0 {
        assert(a + b == b);
    } else {
        lemma_base64_concat(a.skip(3), b);
        assert((a + b).skip(3) == a.skip(3) + b);
    }
}

/// A character of the base64 alphabet.
pub open spec fn is_base64_char(c: char) -> bool {
    ||| 'A' <= c <= 'Z'
    ||| 'a' <= c <= 'z'
    ||| '0' <= c <= '9'
    ||| c == '+'
    ||| c == '/'
}

proof fn lemma_sextet_char(v: int)
    requires
        0 <= v < 64,
    ensures
        is_base64_char(sextet_char(v)),
{
}

proof fn lemma_group_chars(b0: u8, b1: u8, b2: u8, n: int)
    ensures
        forall|i: int|
            0 <= i < 4 ==> is_base64_char(#[trigger] group_chars(b0, b1, b2, n)[i]) || (
            group_chars(b0, b1, b2, n)[i] == '=' && i >= n + 1),
{
    assert((b0 >> 2u8) < 64 && (((b0 & 3u8) << 4u8) | (b1 >> 4u8)) < 64 && (((b1 & 15u8) << 2u8)
        | (b2 >> 6u8)) < 64 && (b2 & 63u8) < 64) by (bit_vector);
    lemma_sextet_char((b0 >> 2u8) as int);
    lemma_sextet_char((((b0 & 3u8) << 4u8) | (b1 >> 4u8)) as int);
    lemma_sextet_char((((b1 & 15u8) << 2u8) | (b2 >> 6u8)) as int);
    lemma_sextet_char((b2 & 63u8) as int);
}

/// Base64 text holds only alphabet characters, except `=` padding in its last
/// two positions.
pub proof fn lemma_base64_alphabet(data: Seq<u8>)
    ensures
        forall|i: int|
            0 <= i < base64_of(data).len() ==> is_base64_char(#[trigger] base64_of(data)[i]) || (
            base64_of(data)[i] == '=' && i >= base64_of(data).len() - 2),
    decreases data.len(),
{
    let out = base64_of(data);
    if data.len() == 1 {
        lemma_group_chars(data[0], 0, 0, 1);
    } else if data.len() == 2 {
        lemma_group_chars(data[0], data[1], 0, 2);
    } else if data.len() > 2 {
        let g = group_chars(data[0], data[1], data[2], 3);
        let rest = base64_of(data.skip(3));
        lemma_group_chars(data[0], data[1], data[2], 3);
        lemma_base64_alphabet(data.skip(3));
        assert forall|i: int| 0 <= i < out.len() implies is_base64_char(#[trigger] out[i]) || (
        out[i] == '=' && i >= out.len() - 2) by {
            if i < 4 {
                assert(out[i] == g[i]);
            } else {
                assert(out[i] == rest[i - 4]);
            }
        }
    }
}

/// The 6-bit value a base64 alphabet character stands for.
pub open spec fn sextet_value(c: char) -> int {
    if 'A' <= c <= 'Z' {
        (c as int) - 65
    } else if 'a' <= c <= 'z' {
        (c as int) - 71
    } else if '0' <= c <= '9' {
        (c as int) + 4
    } else if c == '+' {
        62
    } else {
        63
    }
}

/// The bytes that one group of four base64 characters stands for: three, or
/// fewer where the group ends in `=` padding.
pub open spec fn decode_group(g: Seq<char>) -> Seq<u8> {
    let v0 = sextet_value(g[0]) as u8;
    let v1 = sextet_value(g[1]) as u8;
    let v2 = sextet_value(g[2]) as u8;
    let v3 = sextet_value(g[3]) as u8;
    let b0 = (v0 << 2u8) | (v1 >> 4u8);
    let b1 = ((v1 & 15u8) << 4u8) | (v2 >> 2u8);
    let b2 = ((v2 & 3u8) << 6u8) | v3;
    if g[2] == '=' {
        seq![b0]
    } else if g[3] == '=' {
        seq![b0, b1]
    } else {
        seq![b0, b1, b2]
    }
}

/// Standard base64 decoding, four characters at a time.
pub open spec fn base64_decode(s: Seq<char>) -> Seq<u8>
    decreases s.len(),
{
    if s.len() < 4 {
        Seq::empty()
    } else {
        decode_group(s.take(4)) + base64_decode(s.skip(4))
    }
}

proof fn lemma_sextet_value(v: int)
    requires
        0 <= v < 64,
    ensures
        sextet_value(sextet_char(v)) == v,
        sextet_char(v) != '=',
{
}

proof fn lemma_decode_group(b0: u8, b1: u8, b2: u8, n: int)
    requires
        1 <= n <= 3,
    ensures
        decode_group(group_chars(b0, b1, b2, n)) == (if n == 1 {
            seq![b0]
        } else if n == 2 {
            seq![b0, b1]
        } else {
            seq![b0, b1, b2]
        }),
{
    let v0 = b0 >> 2u8;
    let v1 = ((b0 & 3u8) << 4u8) | (b1 >> 4u8);
    let v2 = ((b1 & 15u8) << 2u8) | (b2 >> 6u8);
    let v3 = b2 & 63u8;
    assert(v0 < 64 && v1 < 64 && v2 < 64 && v3 < 64) by (bit_vector)
        requires
            v0 == b0 >> 2u8,
            v1 == ((b0 & 3u8) << 4u8) | (b1 >> 4u8),
            v2 == ((b1 & 15u8) << 2u8) | (b2 >> 6u8),
            v3 == b2 & 63u8,
    ;
    lemma_sextet_value(v0 as int);
    lemma_sextet_value(v1 as int);
    lemma_sextet_value(v2 as int);
    lemma_sextet_value(v3 as int);
    assert(((v0 << 2u8) | (v1 >> 4u8)) == b0 && (((v1 & 15u8) << 4u8) | (v2 >> 2u8)) == b1 && (((
    v2 & 3u8) << 6u8) | v3) == b2) by (bit_vector)
        requires
            v0 == b0 >> 2u8,
            v1 == ((b0 & 3u8) << 4u8) | (b1 >> 4u8),
            v2 == ((b1 & 15u8) << 2u8) | (b2 >> 6u8),
            v3 == b2 & 63u8,
    ;
    let g = group_chars(b0, b1, b2, n);
    assert(sextet_value(g[0]) as u8 == v0);
    assert(sextet_value(g[1]) as u8 == v1);
    if n > 1 {
        assert(sextet_value(g[2]) as u8 == v2);
    }
    if n > 2 {
        assert(sextet_value(g[3]) as u8 == v3);
    }
}

/// Decoding the base64 text of `data` gives `data` back.
pub proof fn lemma_base64_decodes(data: Seq<u8>)
    ensures
        base64_decode(base64_of(data)) == data,
    decreases data.len(),
{
    let out = base64_of(data);
    if data.len() == 0 {
    } else if data.len() <= 2 {
        let n = data.len() as int;
        lemma_decode_group(data[0], if n > 1 { data[1] } else { 0 }, 0, n);
        assert(out.len() == 4);
        assert(out.take(4) == out);
        assert(out.skip(4).len() == 0);
        assert(base64_decode(out.skip(4)) == Seq::<u8>::empty());
        assert(base64_decode(out) == decode_group(out.take(4)) + base64_decode(out.skip(4)));
        assert(data =~= (if n == 1 { seq![data[0]] } else { seq![data[0], data[1]] }));
    } else {
        let g = group_chars(data[0], data[1], data[2], 3);
        let rest = base64_of(data.skip(3));
        lemma_decode_group(data[0], data[1], data[2], 3);
        lemma_base64_decodes(data.skip(3));
        assert(out == g + rest);
        assert(out.take(4) == g);
        assert(out.skip(4) == rest);
        assert(base64_decode(out) == decode_group(out.take(4)) + base64_decode(out.skip(4)));
        assert(data =~= seq![data[0], data[1], data[2]] + data.skip(3));
    }
}

/// Different byte strings have different base64 texts.
pub proof fn lemma_base64_injective(a: Seq<u8>, b: Seq<u8>)
    requires
        base64_of(a) == base64_of(b),
    ensures
        a == b,
{
    lemma_base64_decodes(a);
    lemma_base64_decodes(b);
}

} // verus!
