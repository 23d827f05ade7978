//! Standard base64 (alphabet `A-Z a-z 0-9 + /`, padding `=`), with a lenient
//! decoder that skips padding and line breaks.
use vstd::prelude::*;
use vstd::utf8::*;
use crate::text::{push_char, str_bytes_vec};

verus! {

/// The base64 symbol of a 6-bit value.
pub open spec fn b64_symbol(v: u8) -> u8 {
    if v < 26 {
        (65 + v) as u8
    } else if v < 52 {
        (97 + v - 26) as u8
    } else if v < 62 {
        (48 + v - 52) as u8
    } else if v == 62 {
        43
    } else {
        47
    }
}

/// The 6-bit value of a base64 symbol, if the byte is one.
pub open spec fn b64_value(c: u8) -> Option<u8> {
    if 65 <= c <= 90 {
        Some((c - 65) as u8)
    } else if 97 <= c <= 122 {
        Some((c - 97 + 26) as u8)
    } else if 48 <= c <= 57 {
        Some((c - 48 + 52) as u8)
    } else if c == 43 {
        Some(62u8)
    } else if c == 47 {
        Some(63u8)
    } else {
        None
    }
}

/// Byte `k` of `s`, or zero past its end.
pub open spec fn byte_or_zero(s: Seq<u8>, k: int) -> u8 {
    if k < s.len() {
        s[k]
    } else {
        0
    }
}

/// The four symbols for the first (up to) three bytes of `s`; a missing
/// byte counts as zero and its last symbol becomes `=`.
pub open spec fn encode_chunk(s: Seq<u8>) -> Seq<u8> {
    let b0 = s[0];
    let b1 = byte_or_zero(s, 1);
    let b2 = byte_or_zero(s, 2);
    seq![
        b64_symbol(b0 >> 2),
        b64_symbol(((b0 & 3) << 4) | (b1 >> 4)),
        if s.len() > 1 { b64_symbol(((b1 & 15) << 2) | (b2 >> 6)) } else { 61u8 },
        if s.len() > 2 { b64_symbol(b2 & 63) } else { 61u8 },
    ]
}

/// The padded base64 encoding of `s`.
pub open spec fn b64_encode(s: Seq<u8>) -> Seq<u8>
    decreases s.len(),
{
    if s.len() == 0 {
        seq![]
    } else if s.len() <= 3 {
        encode_chunk(s)
    } else {
        encode_chunk(s) + b64_encode(s.skip(3))
    }
}

/// The characters of a byte string, one per byte.
pub open spec fn ascii_chars(s: Seq<u8>) -> Seq<char> {
    s.map_values(|b: u8| b as char)
}

/// Bytes that decoding passes over: `=`, `\n`, `\r` and space.
pub open spec fn is_skipped(c: u8) -> bool {
    c == 61 || c == 10 || c == 13 || c == 32
}

/// The input of decoding with the skipped bytes removed.
pub open spec fn strip_skipped(s: Seq<u8>) -> Seq<u8> {
    s.filter(|c: u8| !is_skipped(c))
}

/// The bytes that one group of decoded values stands for. The first two
/// values always give one byte; a present third and fourth value give one
/// byte each (an absent one counts as zero).
pub open spec fn decode_chunk(v0: u8, v1: u8, v2: Option<u8>, v3: Option<u8>) -> Seq<u8> {
    let w2: u8 = match v2 { Some(x) => x, None => 0u8 };
    let w3: u8 = match v3 { Some(x) => x, None => 0u8 };
    let x0: u8 = (v0 << 2) | (v1 >> 4);
    let x1: u8 = ((v1 & 15) << 4) | (w2 >> 2);
    let x2: u8 = ((w2 & 3) << 6) | w3;
    seq![x0] + (if v2 is Some { seq![x1] } else { Seq::<u8>::empty() }) + (if v3 is Some {
        seq![x2]
    } else {
        Seq::<u8>::empty()
    })
}

/// Decoding of stripped input, four symbols at a time. A group needs at least
/// two symbols; its first two must be base64 symbols, or decoding fails. A third
/// or fourth byte that is not a symbol is treated as absent. A single trailing
/// symbol is ignored.
pub open spec fn decode_clean(c: Seq<u8>) -> Option<Seq<u8>>
    decreases c.len(),
{
    if c.len() < 2 {
        Some(Seq::<u8>::empty())
    } else {
        match (b64_value(c[0]), b64_value(c[1])) {
            (Some(v0), Some(v1)) => {
                let v2 = if c.len() > 2 { b64_value(c[2]) } else { None };
                let v3 = if c.len() > 3 { b64_value(c[3]) } else { None };
                let rest = if c.len() > 4 { c.skip(4) } else { Seq::<u8>::empty() };
                match decode_clean(rest) {
                    Some(t) => Some(decode_chunk(v0, v1, v2, v3) + t),
                    None => None,
                }
            },
            _ => None,
        }
    }
}

/// What decoding gives for `s`.
pub open spec fn b64_decode(s: Seq<u8>) -> Option<Seq<u8>> {
    decode_clean(strip_skipped(s))
}

fn symbol(v: u32) -> (r: u8)
    requires
        v < 64,
    ensures
        r == b64_symbol(v as u8),
{
    let b = v as u8;
    if b < 26 {
        65 + b
    } else if b < 52 {
        97 + b - 26
    } else if b < 62 {
        48 + b - 52
    } else if b == 62 {
        43
    } else {
        47
    }
}

proof fn lemma_encode_bits(b0: u8, b1: u8, b2: u8)
    by (bit_vector)
    ensures
        ({
            let t: u32 = ((b0 as u32) << 16u32) | ((b1 as u32) << 8u32) | (b2 as u32);
            &&& ((t >> 18u32) & 0x3Fu32) == ((b0 >> 2u8) as u32)
            &&& ((t >> 12u32) & 0x3Fu32) == ((((b0 & 3u8) << 4u8) | (b1 >> 4u8)) as u32)
            &&& ((t >> 6u32) & 0x3Fu32) == ((((b1 & 15u8) << 2u8) | (b2 >> 6u8)) as u32)
            &&& (t & 0x3Fu32) == ((b2 & 63u8) as u32)
            &&& ((t >> 18u32) & 0x3Fu32) < 64
            &&& ((t >> 12u32) & 0x3Fu32) < 64
            &&& ((t >> 6u32) & 0x3Fu32) < 64
            &&& (t & 0x3Fu32) < 64
        }),
{
}

proof fn lemma_encode_step(s: Seq<u8>)
    requires
        s.len() > 0,
    ensures
        b64_encode(s) == encode_chunk(s) + (if s.len() > 3 { b64_encode(s.skip(3)) } else {
            Seq::<u8>::empty()
        }),
{
    if s.len() <= 3 {
        assert(encode_chunk(s) + Seq::<u8>::empty() =~= encode_chunk(s));
    }
}

/// Encodes bytes as padded base64 text.
pub fn base64_encode(data: &[u8]) -> (out: String)
    ensures
        out@ == ascii_chars(b64_encode(data@)),
{
    let mut out = String::new();
    let ghost mut done: Seq<u8> = Seq::empty();
    let n = data.len();
    let mut i: usize = 0;
    assert(data@.skip(0) =~= data@);
    while i < n
        invariant
            n == data@.len(),
            i <= n,
            b64_encode(data@) == done + b64_encode(data@.skip(i as int)),
            out@ == ascii_chars(done),
        decreases n - i,
    {
        let ghost s = data@.skip(i as int);
        let b0 = data[i];
        let b1: u8 = if n - i > 1 { data[i + 1] } else { 0 };
        let b2: u8 = if n - i > 2 { data[i + 2] } else { 0 };
        assert(b0 == s[0]);
        assert(b1 == byte_or_zero(s, 1));
        assert(b2 == byte_or_zero(s, 2));
        let triple: u32 = ((b0 as u32) << 16u32) | ((b1 as u32) << 8u32) | (b2 as u32);
        proof {
            lemma_encode_bits(b0, b1, b2);
            lemma_encode_step(s);
        }
        let c0 = symbol((triple >> 18u32) & 0x3F);
        let c1 = symbol((triple >> 12u32) & 0x3F);
        let c2 = if n - i > 1 { symbol((triple >> 6u32) & 0x3F) } else { 61u8 };
        let c3 = if n - i > 2 { symbol(triple & 0x3F) } else { 61u8 };
        assert(encode_chunk(s) =~= seq![c0, c1, c2, c3]);
        push_char(&mut out, c0 as char);
        push_char(&mut out, c1 as char);
        push_char(&mut out, c2 as char);
        push_char(&mut out, c3 as char);
        proof {
            let next = done + seq![c0, c1, c2, c3];
            assert(out@ =~= ascii_chars(next));
            done = next;
        }
        if n - i <= 3 {
            i = n;
            assert(data@.skip(i as int) =~= Seq::<u8>::empty());
            assert(done + b64_encode(data@.skip(i as int)) =~= done);
        } else {
            assert(s.skip(3) =~= data@.skip(i + 3));
            i = i + 3;
            assert(b64_encode(data@) =~= done + b64_encode(data@.skip(i as int)));
        }
    }
    assert(data@.skip(i as int) =~= Seq::<u8>::empty());
    assert(done + Seq::<u8>::empty() =~= done);
    out
}

/// Every byte of an encoding is below 128.
proof fn lemma_encode_ascii(s: Seq<u8>)
    ensures
        forall|k: int| 0 <= k < b64_encode(s).len() ==> #[trigger] b64_encode(s)[k] < 128,
    decreases s.len(),
{
    if s.len() > 3 {
        lemma_encode_ascii(s.skip(3));
        let e = b64_encode(s);
        assert forall|k: int| 0 <= k < e.len() implies #[trigger] e[k] < 128 by {
            if k >= 4 {
                assert(e[k] == b64_encode(s.skip(3))[k - 4]);
            }
        }
    }
}

/// Encodes bytes as padded base64 and returns the text's bytes.
pub fn base64_encode_bytes(data: &[u8]) -> (out: Vec<u8>)
    ensures
        out@ == b64_encode(data@),
{
    let s = base64_encode(data);
    let r = str_bytes_vec(s.as_str());
    proof {
        let e = b64_encode(data@);
        lemma_encode_ascii(data@);
        assert(is_ascii_chars(s@));
        is_ascii_chars_encode_utf8(s@);
        assert forall|k: int| 0 <= k < e.len() implies r@[k] == e[k] by {
            assert(s@[k] == (e[k] as char));
        }
        assert(r@ =~= e);
    }
    r
}

/// The value of a base64 symbol.
fn val(c: u8) -> (r: Option<u32>)
    ensures
        r == (match b64_value(c) {
            Some(v) => Some(v as u32),
            None => None,
        }),
{
    if 65 <= c && c <= 90 {
        Some((c - 65) as u32)
    } else if 97 <= c && c <= 122 {
        Some((c - 97 + 26) as u32)
    } else if 48 <= c && c <= 57 {
        Some((c - 48 + 52) as u32)
    } else if c == 43 {
        Some(62)
    } else if c == 47 {
        Some(63)
    } else {
        None
    }
}

proof fn lemma_decode_bits(v0: u8, v1: u8, w2: u8, w3: u8)
    by (bit_vector)
    requires
        v0 < 64,
        v1 < 64,
        w2 < 64,
        w3 < 64,
    ensures
        ({
            let t: u32 = ((v0 as u32) << 18u32) | ((v1 as u32) << 12u32) | ((w2 as u32) << 6u32) | (
            w3 as u32);
            &&& ((t >> 16u32) & 0xFFu32) as u8 == ((v0 << 2u8) | (v1 >> 4u8))
            &&& ((t >> 8u32) & 0xFFu32) as u8 == (((v1 & 15u8) << 4u8) | (w2 >> 2u8))
            &&& (t & 0xFFu32) as u8 == (((w2 & 3u8) << 6u8) | w3)
        }),
{
}

proof fn lemma_value_bound(c: u8)
    ensures
        b64_value(c) matches Some(v) ==> v < 64,
{
}

/// Decodes base64 text, skipping padding, spaces and line breaks; `None` when
/// a group does not start with two base64 symbols.
pub fn base64_decode_bytes(data: &[u8]) -> (r: Option<Vec<u8>>)
    ensures
        match r {
            Some(v) => b64_decode(data@) == Some(v@),
            None => b64_decode(data@) is None,
        },
{
    let mut clean: Vec<u8> = Vec::new();
    let mut k: usize = 0;
    while k < data.len()
        invariant
            k <= data@.len(),
            clean@ == data@.take(k as int).filter(|c: u8| !is_skipped(c)),
        decreases data@.len() - k,
    {
        let c = data[k];
        proof {
            reveal_with_fuel(Seq::<_>::filter, 1);
            assert(data@.take(k + 1).drop_last() =~= data@.take(k as int));
        }
        if !(c == 61 || c == 10 || c == 13 || c == 32) {
            clean.push(c);
        }
        k = k + 1;
    }
    assert(data@.take(k as int) =~= data@);
    let ghost cl = clean@;
    assert(cl == strip_skipped(data@));
    let n = clean.len();
    let mut out: Vec<u8> = Vec::new();
    let mut i: usize = 0;
    assert(cl.skip(0) =~= cl);
    while n - i >= 2
        invariant
            n == cl.len(),
            cl == clean@,
            cl == strip_skipped(data@),
            i <= n,
            decode_clean(cl) == (match decode_clean(cl.skip(i as int)) {
                Some(t) => Some(out@ + t),
                None => None,
            }),
        decreases n - i,
    {
        let ghost s = cl.skip(i as int);
        assert(s[0] == clean[i as int] && s[1] == clean[i + 1]);
        let v0 = match val(clean[i]) {
            Some(v) => v,
            None => {
                assert(decode_clean(s) is None);
                return None;
            },
        };
        let v1 = match val(clean[i + 1]) {
            Some(v) => v,
            None => {
                assert(decode_clean(s) is None);
                return None;
            },
        };
        let v2: Option<u32> = if n - i > 2 { val(clean[i + 2]) } else { None };
        let v3: Option<u32> = if n - i > 3 { val(clean[i + 3]) } else { None };
        let ghost g2 = if s.len() > 2 { b64_value(s[2]) } else { None };
        let ghost g3 = if s.len() > 3 { b64_value(s[3]) } else { None };
        proof {
            lemma_value_bound(s[0]);
            lemma_value_bound(s[1]);
            if s.len() > 2 {
                lemma_value_bound(s[2]);
                assert(s[2] == clean@[i + 2]);
            }
            if s.len() > 3 {
                lemma_value_bound(s[3]);
                assert(s[3] == clean@[i + 3]);
            }
        }
        let w2: u32 = match v2 { Some(x) => x, None => 0 };
        let w3: u32 = match v3 { Some(x) => x, None => 0 };
        let triple: u32 = (v0 << 18u32) | (v1 << 12u32) | (w2 << 6u32) | w3;
        proof {
            lemma_decode_bits(v0 as u8, v1 as u8, w2 as u8, w3 as u8);
        }
        let ghost before = out@;
        out.push(((triple >> 16u32) & 0xFF) as u8);
        if v2.is_some() {
            out.push(((triple >> 8u32) & 0xFF) as u8);
        }
        if v3.is_some() {
            out.push((triple & 0xFF) as u8);
        }
        proof {
            let gv0 = b64_value(s[0]).unwrap();
            let gv1 = b64_value(s[1]).unwrap();
            assert(out@ =~= before + decode_chunk(gv0, gv1, g2, g3));
        }
        if n - i <= 4 {
            i = n;
            assert(cl.skip(i as int) =~= Seq::<u8>::empty());
        } else {
            assert(s.skip(4) =~= cl.skip(i + 4));
            i = i + 4;
        }
        assert(decode_clean(cl) == (match decode_clean(cl.skip(i as int)) {
            Some(t) => Some(out@ + t),
            None => None,
        })) by {
            match decode_clean(cl.skip(i as int)) {
                Some(t) => {
                    assert(out@ + t =~= before + (decode_chunk(
                        b64_value(s[0]).unwrap(),
                        b64_value(s[1]).unwrap(),
                        g2,
                        g3,
                    ) + t));
                },
                None => {},
            }
        }
    }
    proof {
        let rest = cl.skip(i as int);
        assert(decode_clean(rest) == Some(Seq::<u8>::empty()));
        assert(out@ + Seq::<u8>::empty() =~= out@);
    }
    Some(out)
}

proof fn lemma_symbol_value(v: u8)
    requires
        v < 64,
    ensures
        b64_value(b64_symbol(v)) == Some(v),
        !is_skipped(b64_symbol(v)),
{
}

proof fn lemma_chunk_bits(b0: u8, b1: u8, b2: u8)
    by (bit_vector)
    ensures
        ({
            let v0: u8 = b0 >> 2u8;
            let v1: u8 = ((b0 & 3u8) << 4u8) | (b1 >> 4u8);
            let v2: u8 = ((b1 & 15u8) << 2u8) | (b2 >> 6u8);
            let v3: u8 = b2 & 63u8;
            &&& v0 < 64 && v1 < 64 && v2 < 64 && v3 < 64
            &&& (v0 << 2u8) | (v1 >> 4u8) == b0
            &&& ((v1 & 15u8) << 4u8) | (v2 >> 2u8) == b1
            &&& ((v2 & 3u8) << 6u8) | v3 == b2
        }),
{
}

/// The symbols of the first chunk of `s`, without its padding.
spec fn chunk_symbols(s: Seq<u8>) -> Seq<u8> {
    encode_chunk(s).take(if s.len() < 3 { s.len() as int + 1 } else { 4int })
}

proof fn lemma_strip_chunk(s: Seq<u8>)
    requires
        s.len() > 0,
    ensures
        strip_skipped(encode_chunk(s)) == chunk_symbols(s),
{
    let b0 = s[0];
    let b1 = byte_or_zero(s, 1);
    let b2 = byte_or_zero(s, 2);
    lemma_chunk_bits(b0, b1, b2);
    lemma_symbol_value(b0 >> 2);
    lemma_symbol_value(((b0 & 3) << 4) | (b1 >> 4));
    lemma_symbol_value(((b1 & 15) << 2) | (b2 >> 6));
    lemma_symbol_value(b2 & 63);
    let e = encode_chunk(s);
    reveal_with_fuel(Seq::<_>::filter, 5);
    assert(e.drop_last().drop_last().drop_last().drop_last() =~= Seq::<u8>::empty());
    assert(e.drop_last().drop_last().drop_last() =~= seq![e[0]]);
    assert(e.drop_last().drop_last() =~= seq![e[0], e[1]]);
    assert(e.drop_last() =~= seq![e[0], e[1], e[2]]);
    assert(strip_skipped(e) =~= chunk_symbols(s));
}

proof fn lemma_strip_encode(s: Seq<u8>)
    requires
        s.len() > 3,
    ensures
        strip_skipped(b64_encode(s)) == chunk_symbols(s) + strip_skipped(b64_encode(s.skip(3))),
{
    lemma_strip_chunk(s);
    Seq::filter_distributes_over_add(
        encode_chunk(s),
        b64_encode(s.skip(3)),
        |c: u8| !is_skipped(c),
    );
}

proof fn lemma_decode_encoded(s: Seq<u8>)
    ensures
        decode_clean(strip_skipped(b64_encode(s))) == Some(s),
    decreases s.len(),
{
    if s.len() == 0 {
        reveal_with_fuel(Seq::<_>::filter, 1);
        assert(strip_skipped(b64_encode(s)) =~= Seq::<u8>::empty());
        assert(s =~= Seq::<u8>::empty());
    } else {
        let b0 = s[0];
        let b1 = byte_or_zero(s, 1);
        let b2 = byte_or_zero(s, 2);
        lemma_chunk_bits(b0, b1, b2);
        let v0: u8 = b0 >> 2;
        let v1: u8 = ((b0 & 3) << 4) | (b1 >> 4);
        let v2: u8 = ((b1 & 15) << 2) | (b2 >> 6);
        let v3: u8 = b2 & 63;
        lemma_symbol_value(v0);
        lemma_symbol_value(v1);
        lemma_symbol_value(v2);
        lemma_symbol_value(v3);
        let c = chunk_symbols(s);
        let head = s.take(if s.len() < 3 { s.len() as int } else { 3 });
        let g2: Option<u8> = if c.len() > 2 { Some(v2) } else { None };
        let g3: Option<u8> = if c.len() > 3 { Some(v3) } else { None };
        assert(decode_chunk(v0, v1, g2, g3) =~= head);
        if s.len() <= 3 {
            lemma_strip_chunk(s);
            let r = strip_skipped(b64_encode(s));
            assert(r == c);
            assert(decode_clean(Seq::<u8>::empty()) == Some(Seq::<u8>::empty()));
            assert(head + Seq::<u8>::empty() =~= s);
        } else {
            lemma_strip_encode(s);
            lemma_decode_encoded(s.skip(3));
            let rest = strip_skipped(b64_encode(s.skip(3)));
            if rest.len() == 0 {
                assert(decode_clean(rest) == Some(Seq::<u8>::empty()));
                assert(s.skip(3).len() > 0);
                assert(false);
            }
            let whole = c + rest;
            assert(whole.skip(4) =~= rest);
            assert(whole[0] == c[0] && whole[1] == c[1] && whole[2] == c[2] && whole[3] == c[3]);
            assert(head + s.skip(3) =~= s);
        }
    }
}

/// Decoding the encoding of some bytes gives those bytes back.
pub proof fn lemma_base64_roundtrip(data: Seq<u8>)
    ensures
        b64_decode(b64_encode(data)) == Some(data),
{
    lemma_decode_encoded(data);
}

/// The standard base64 alphabet, in the order of the values it writes.
pub open spec fn standard_alphabet() -> Seq<char> {
    "ABCDEFGHIJKLMNOPQRSTUVWXYZabcdefghijklmnopqrstuvwxyz0123456789+/"@
}

/// Each 6-bit value `v` is written as the `v`-th character of the standard
/// alphabet, and a byte is read back as a value exactly when it is one of those
/// characters, as the value of its position. Decoding passes over exactly `=`,
/// line feed, carriage return and space.
pub proof fn lemma_base64_standard_alphabet(v: u8, c: u8)
    ensures
        v < 64 ==> b64_symbol(v) as char == standard_alphabet()[v as int],
        b64_value(c) == Some(v) <==> (v < 64 && c as char == standard_alphabet()[v as int]),
        is_skipped(c) <==> (c as char == '=' || c as char == '\n' || c as char == '\r' || c as char
            == ' '),
{
    reveal_strlit("ABCDEFGHIJKLMNOPQRSTUVWXYZabcdefghijklmnopqrstuvwxyz0123456789+/");
}

/// Every byte is a base64 symbol.
pub open spec fn all_symbols(c: Seq<u8>) -> bool {
    forall|i: int| 0 <= i < c.len() ==> (#[trigger] b64_value(c[i])) is Some
}

/// How many bytes `n` base64 symbols decode to: three per group of four, and
/// one or two for a trailing group of two or three (a lone symbol gives none).
pub open spec fn decoded_len(n: int) -> int {
    3 * (n / 4) + if n % 4 == 2 {
        1int
    } else if n % 4 == 3 {
        2int
    } else {
        0int
    }
}

proof fn lemma_strip_idempotent(s: Seq<u8>)
    ensures
        strip_skipped(strip_skipped(s)) == strip_skipped(s),
    decreases s.len(),
{
    reveal_with_fuel(Seq::<_>::filter, 1);
    if s.len() > 0 {
        lemma_strip_idempotent(s.drop_last());
        let f = strip_skipped(s.drop_last());
        if !is_skipped(s.last()) {
            let g = f.push(s.last());
            assert(g.drop_last() =~= f);
            assert(strip_skipped(g) =~= strip_skipped(f).push(s.last()));
        }
    }
}

proof fn lemma_decode_clean_len(c: Seq<u8>)
    requires
        all_symbols(c),
    ensures
        decode_clean(c) matches Some(out) && out.len() == decoded_len(c.len() as int),
    decreases c.len(),
{
    if c.len() >= 2 {
        assert(b64_value(c[0]) is Some && b64_value(c[1]) is Some);
        if c.len() > 2 {
            assert(b64_value(c[2]) is Some);
        }
        if c.len() > 3 {
            assert(b64_value(c[3]) is Some);
        }
        if c.len() > 4 {
            let rest = c.skip(4);
            assert forall|i: int| 0 <= i < rest.len() implies (#[trigger] b64_value(rest[i])) is Some by {
                assert(rest[i] == c[i + 4]);
            }
            lemma_decode_clean_len(rest);
        } else {
            assert(decode_clean(Seq::<u8>::empty()) == Some(Seq::<u8>::empty()));
        }
    }
}

/// Decoding passes over `=`, line breaks and spaces: removing them first gives
/// the same result. When every other byte is a base64 symbol, decoding succeeds
/// with three bytes per four symbols, plus one or two for a trailing group of
/// two or three.
pub proof fn lemma_decode_stripped(data: Seq<u8>)
    ensures
        b64_decode(strip_skipped(data)) == b64_decode(data),
        all_symbols(strip_skipped(data)) ==> (b64_decode(data) matches Some(out) && out.len()
            == decoded_len(strip_skipped(data).len() as int)),
{
    lemma_strip_idempotent(data);
    if all_symbols(strip_skipped(data)) {
        lemma_decode_clean_len(strip_skipped(data));
    }
}

} // verus!
