//! Base64 encoding, as the HTTP Basic authorization header uses it.

use vstd::prelude::*;
use crate::text::push_char;
use vstd::utf8::encode_utf8;

verus! {

/// The character of the standard Base64 alphabet for the 6-bit value `x`.
pub open spec fn alphabet(x: nat) -> char {
    if x < 26 {
        (65 + x) as char
    } else if x < 52 {
        (97 + (x - 26)) as char
    } else if x < 62 {
        (48 + (x - 52)) as char
    } else if x == 62 {
        '+'
    } else {
        '/'
    }
}

/// The four characters that encode the one to three bytes of `g`, with `=`
/// for each byte that is missing.
pub open spec fn encode_group(g: Seq<u8>) -> Seq<char> {
    let b0 = g[0] as nat;
    let b1 = if g.len() > 1 { g[1] as nat } else { 0 };
    let b2 = if g.len() > 2 { g[2] as nat } else { 0 };
    seq![
        alphabet(b0 / 4),
        alphabet((b0 % 4) * 16 + b1 / 16),
        if g.len() > 1 { alphabet((b1 % 16) * 4 + b2 / 64) } else { '=' },
        if g.len() > 2 { alphabet(b2 % 64) } else { '=' },
    ]
}

/// The padded Base64 encoding of `bytes`, three bytes at a time.
pub open spec fn base64(bytes: Seq<u8>) -> Seq<char>
    decreases bytes.len(),
{
    if bytes.len() == 0 {
        Seq::empty()
    } else if bytes.len() <= 3 {
        encode_group(bytes)
    } else {
        encode_group(bytes.take(3)) + base64(bytes.skip(3))
    }
}

/// Every three bytes, or fewer at the end, become four characters.
pub proof fn lemma_base64_length(bytes: Seq<u8>)
    ensures
        base64(bytes).len() == 4 * ((bytes.len() + 2) / 3),
    decreases bytes.len(),
{
    if bytes.len() > 3 {
        lemma_base64_length(bytes.skip(3));
    }
}

proof fn lemma_alphabet_injective(x: nat, y: nat)
    requires
        x < 64,
        y < 64,
        alphabet(x) == alphabet(y),
    ensures
        x == y,
{
}

proof fn lemma_alphabet_not_pad(x: nat)
    requires
        x < 64,
    ensures
        alphabet(x) != '=',
{
}

proof fn lemma_encode_group_injective(g: Seq<u8>, h: Seq<u8>)
    requires
        1 <= g.len() <= 3,
        1 <= h.len() <= 3,
        encode_group(g) == encode_group(h),
    ensures
        g == h,
{
    let eg = encode_group(g);
    let g0 = g[0] as nat;
    let g1 = if g.len() > 1 { g[1] as nat } else { 0 };
    let g2 = if g.len() > 2 { g[2] as nat } else { 0 };
    let h0 = h[0] as nat;
    let h1 = if h.len() > 1 { h[1] as nat } else { 0 };
    let h2 = if h.len() > 2 { h[2] as nat } else { 0 };
    assert(eg[2] == encode_group(h)[2] && eg[3] == encode_group(h)[3]);
    assert(eg[0] == encode_group(h)[0] && eg[1] == encode_group(h)[1]);
    lemma_alphabet_not_pad((g1 % 16) * 4 + g2 / 64);
    lemma_alphabet_not_pad((h1 % 16) * 4 + h2 / 64);
    lemma_alphabet_not_pad(g2 % 64);
    lemma_alphabet_not_pad(h2 % 64);
    assert(g.len() == h.len());
    lemma_alphabet_injective(g0 / 4, h0 / 4);
    lemma_alphabet_injective((g0 % 4) * 16 + g1 / 16, (h0 % 4) * 16 + h1 / 16);
    assert(g0 == h0 && g1 / 16 == h1 / 16);
    if g.len() > 1 {
        lemma_alphabet_injective((g1 % 16) * 4 + g2 / 64, (h1 % 16) * 4 + h2 / 64);
        assert(g1 == h1 && g2 / 64 == h2 / 64);
    }
    if g.len() > 2 {
        lemma_alphabet_injective(g2 % 64, h2 % 64);
        assert(g2 == h2);
    }
    assert(g =~= h);
}

/// The 6-bit value of a character of the standard Base64 alphabet (0 for
/// any other character).
pub open spec fn alphabet_index(c: char) -> nat {
    if 'A' <= c <= 'Z' {
        (c as nat - 65) as nat
    } else if 'a' <= c <= 'z' {
        (c as nat - 97 + 26) as nat
    } else if '0' <= c <= '9' {
        (c as nat - 48 + 52) as nat
    } else if c == '+' {
        62
    } else if c == '/' {
        63
    } else {
        0
    }
}

/// The one to three bytes that four characters encode, by RFC 4648: a `=`
/// in the third place leaves one byte, in the fourth place two.
pub open spec fn decode_group(q: Seq<char>) -> Seq<u8> {
    let x0 = alphabet_index(q[0]);
    let x1 = alphabet_index(q[1]);
    let x2 = alphabet_index(q[2]);
    let x3 = alphabet_index(q[3]);
    let b0 = (x0 * 4 + x1 / 16) as u8;
    let b1 = ((x1 % 16) * 16 + x2 / 4) as u8;
    let b2 = ((x2 % 4) * 64 + x3) as u8;
    if q[2] == '=' {
        seq![b0]
    } else if q[3] == '=' {
        seq![b0, b1]
    } else {
        seq![b0, b1, b2]
    }
}

/// The standard Base64 decoding of padded text, four characters at a time.
pub open spec fn base64_decode(s: Seq<char>) -> Seq<u8>
    decreases s.len(),
{
    if s.len() < 4 {
        Seq::empty()
    } else {
        decode_group(s.take(4)) + base64_decode(s.skip(4))
    }
}

proof fn lemma_alphabet_index(x: nat)
    requires
        x < 64,
    ensures
        alphabet_index(alphabet(x)) == x,
{
}

proof fn lemma_decode_encode_group(g: Seq<u8>)
    requires
        1 <= g.len() <= 3,
    ensures
        decode_group(encode_group(g)) == g,
{
    let b0 = g[0] as nat;
    let b1 = if g.len() > 1 { g[1] as nat } else { 0 };
    let b2 = if g.len() > 2 { g[2] as nat } else { 0 };
    let q = encode_group(g);
    let x0 = b0 / 4;
    let x1 = (b0 % 4) * 16 + b1 / 16;
    let x2 = (b1 % 16) * 4 + b2 / 64;
    let x3 = b2 % 64;
    lemma_alphabet_index(x0);
    lemma_alphabet_index(x1);
    lemma_alphabet_not_pad(x0);
    lemma_alphabet_not_pad(x1);
    if g.len() > 1 {
        lemma_alphabet_index(x2);
        lemma_alphabet_not_pad(x2);
    }
    if g.len() > 2 {
        lemma_alphabet_index(x3);
        lemma_alphabet_not_pad(x3);
    }
    assert(alphabet_index(q[0]) == x0);
    assert(alphabet_index(q[1]) == x1);
    assert(x0 * 4 + x1 / 16 == b0);
    if g.len() > 1 {
        assert(alphabet_index(q[2]) == x2);
        assert((x1 % 16) * 16 + x2 / 4 == b1);
    }
    if g.len() > 2 {
        assert(alphabet_index(q[3]) == x3);
        assert((x2 % 4) * 64 + x3 == b2);
    }
    assert(decode_group(q) =~= g);
}

/// Decoding the encoding of `bytes` gives `bytes` back.
pub proof fn lemma_base64_round_trip(bytes: Seq<u8>)
    ensures
        base64_decode(base64(bytes)) == bytes,
    decreases bytes.len(),
{
    if bytes.len() == 0 {
    } else if bytes.len() <= 3 {
        lemma_decode_encode_group(bytes);
        let e = base64(bytes);
        assert(e.take(4) =~= e);
        assert(e.skip(4) =~= Seq::<char>::empty());
        assert(base64_decode(e.skip(4)) =~= Seq::<u8>::empty());
        assert(base64_decode(e) == decode_group(e.take(4)) + base64_decode(e.skip(4)));
        assert(decode_group(e) + Seq::<u8>::empty() =~= bytes);
    } else {
        let e = base64(bytes);
        lemma_decode_encode_group(bytes.take(3));
        lemma_base64_round_trip(bytes.skip(3));
        assert(e.take(4) =~= encode_group(bytes.take(3)));
        assert(e.skip(4) =~= base64(bytes.skip(3)));
        assert(e.len() >= 4);
        assert(base64_decode(e) == decode_group(e.take(4)) + base64_decode(e.skip(4)));
        assert(bytes =~= bytes.take(3) + bytes.skip(3));
    }
}

/// Different byte strings have different encodings: the encoding can be
/// decoded.
pub proof fn lemma_base64_injective(a: Seq<u8>, b: Seq<u8>)
    requires
        base64(a) == base64(b),
    ensures
        a == b,
    decreases a.len(),
{
    lemma_base64_length(a);
    lemma_base64_length(b);
    if a.len() == 0 || b.len() == 0 {
        assert(a.len() == 0 && b.len() == 0);
        assert(a =~= b);
    } else if a.len() <= 3 && b.len() <= 3 {
        lemma_encode_group_injective(a, b);
    } else if a.len() > 3 && b.len() > 3 {
        let ea = encode_group(a.take(3));
        let eb = encode_group(b.take(3));
        assert(base64(a).take(4) =~= ea);
        assert(base64(b).take(4) =~= eb);
        lemma_encode_group_injective(a.take(3), b.take(3));
        assert(base64(a).skip(4) =~= base64(a.skip(3)));
        assert(base64(b).skip(4) =~= base64(b.skip(3)));
        lemma_base64_injective(a.skip(3), b.skip(3));
        assert(a =~= a.take(3) + a.skip(3));
        assert(b =~= b.take(3) + b.skip(3));
    } else {
        lemma_base64_length(a.skip(3));
        lemma_base64_length(b.skip(3));
    }
}

/// Different strings have different encodings of their UTF-8 bytes.
pub proof fn lemma_base64_encode_injective(s1: Seq<char>, s2: Seq<char>)
    requires
        base64(encode_utf8(s1)) == base64(encode_utf8(s2)),
    ensures
        s1 == s2,
{
    lemma_base64_injective(encode_utf8(s1), encode_utf8(s2));
    vstd::utf8::encode_utf8_decode_utf8(s1);
    vstd::utf8::encode_utf8_decode_utf8(s2);
}

/// The alphabet character for `x`.
fn alphabet_char(x: u32) -> (c: char)
    requires
        x < 64,
    ensures
        c == alphabet(x as nat),
{
    if x < 26 {
        (65 + x) as u8 as char
    } else if x < 52 {
        (97 + (x - 26)) as u8 as char
    } else if x < 62 {
        (48 + (x - 52)) as u8 as char
    } else if x == 62 {
        '+'
    } else {
        '/'
    }
}

/// The padded Base64 encoding of `bytes`.
pub fn base64_encode_bytes(bytes: &[u8]) -> (r: String)
    ensures
        r@ == base64(bytes@),
{
    let len = bytes.len();
    let mut result = String::new();
    let mut i: usize = 0;
    assert(bytes@.skip(0) =~= bytes@);
    assert(result@ + base64(bytes@) =~= base64(bytes@));
    while i < len
        invariant
            i <= len == bytes@.len(),
            base64(bytes@) == result@ + base64(bytes@.skip(i as int)),
        decreases len - i,
    {
        let ghost rest = bytes@.skip(i as int);
        let ghost group = if rest.len() <= 3 { rest } else { rest.take(3) };
        let b0 = bytes[i] as u32;
        let b1 = if i + 1 < len { bytes[i + 1] as u32 } else { 0 };
        let b2 = if len - i > 2 { bytes[i + 2] as u32 } else { 0 };
        assert(group[0] as u32 == b0);
        assert(group.len() > 1 ==> group[1] as u32 == b1);
        assert(group.len() > 2 ==> group[2] as u32 == b2);
        assert((b0 >> 2) & 0x3F == b0 / 4) by (bit_vector)
            requires
                b0 < 256,
        ;
        assert(((b0 << 4) | (b1 >> 4)) & 0x3F == (b0 % 4) * 16 + b1 / 16) by (bit_vector)
            requires
                b0 < 256,
                b1 < 256,
        ;
        assert(((b1 << 2) | (b2 >> 6)) & 0x3F == (b1 % 16) * 4 + b2 / 64) by (bit_vector)
            requires
                b1 < 256,
                b2 < 256,
        ;
        assert(b2 & 0x3F == b2 % 64) by (bit_vector);
        let ghost before = result@;
        push_char(&mut result, alphabet_char((b0 >> 2) & 0x3F));
        push_char(&mut result, alphabet_char(((b0 << 4) | (b1 >> 4)) & 0x3F));
        push_char(
            &mut result,
            if i + 1 < len {
                alphabet_char(((b1 << 2) | (b2 >> 6)) & 0x3F)
            } else {
                '='
            },
        );
        push_char(&mut result, if len - i > 2 { alphabet_char(b2 & 0x3F) } else { '=' });
        assert(result@ =~= before + encode_group(group));
        if len - i > 3 {
            assert(rest.skip(3) =~= bytes@.skip(i + 3));
            i = i + 3;
        } else {
            i = len;
            assert(bytes@.skip(i as int) =~= Seq::<u8>::empty());
        }
    }
    assert(bytes@.skip(len as int) =~= Seq::<u8>::empty());
    result
}

/// The padded Base64 encoding of the UTF-8 bytes of `input`.
pub fn base64_encode(input: &str) -> (r: String)
    ensures
        r@ == base64(encode_utf8(input@)),
{
    base64_encode_bytes(input.as_bytes())
}

} // verus!
