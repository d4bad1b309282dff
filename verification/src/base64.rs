//! Base64 (RFC 4648 alphabet) over the UTF-8 bytes of a string.

use vstd::prelude::*;
use vstd::utf8::*;

use crate::text::string_of;

verus! {

/// The Base64 alphabet symbol for a 6-bit value `v` (`v < 64`):
/// `A-Z`, `a-z`, `0-9`, `+`, `/`.
pub open spec fn symbol(v: u8) -> u8 {
    if v < 26 {
        (v + 65) as u8
    } else if v < 52 {
        (v + 71) as u8
    } else if v < 62 {
        (v - 4) as u8
    } else if v == 62 {
        43
    } else {
        47
    }
}

/// The position of byte `b` in the Base64 alphabet, if it is one of its symbols.
pub open spec fn sextet(b: u8) -> Option<u8> {
    if 65 <= b <= 90 {
        Some((b - 65) as u8)
    } else if 97 <= b <= 122 {
        Some((b - 71) as u8)
    } else if 48 <= b <= 57 {
        Some((b + 4) as u8)
    } else if b == 43 {
        Some(62)
    } else if b == 47 {
        Some(63)
    } else {
        None
    }
}

/// The padding byte `=`.
pub open spec fn pad() -> u8 {
    61
}

/// The four output bytes for one input group `d` of one to three bytes;
/// missing input bytes count as zero and missing output symbols are `=`.
pub open spec fn encode_group(d: Seq<u8>) -> Seq<u8> {
    let x = d[0];
    let y: u8 = if d.len() > 1 { d[1] } else { 0 };
    let z: u8 = if d.len() > 2 { d[2] } else { 0 };
    seq![
        symbol(x >> 2),
        symbol(((x & 3) << 4) | (y >> 4)),
        if d.len() > 1 { symbol(((y & 15) << 2) | (z >> 6)) } else { pad() },
        if d.len() > 2 { symbol(z & 63) } else { pad() },
    ]
}

/// Padded Base64 encoding of a byte sequence, three input bytes per group.
pub open spec fn encode_bytes(d: Seq<u8>) -> Seq<u8>
    decreases d.len(),
{
    if d.len() == 0 {
        seq![]
    } else if d.len() <= 3 {
        encode_group(d)
    } else {
        encode_group(d.take(3)) + encode_bytes(d.skip(3))
    }
}

/// Decoding of symbols with the padding already removed, four symbols per
/// group. A trailing group of a single symbol is ignored; a group of two or
/// three symbols yields one or two bytes; any byte outside the alphabet in a
/// decoded group makes the whole decoding fail.
pub open spec fn decode_symbols(s: Seq<u8>) -> Option<Seq<u8>>
    decreases s.len(),
{
    if s.len() < 2 {
        Some(seq![])
    } else {
        match (sextet(s[0]), sextet(s[1])) {
            (Some(a), Some(b)) => {
                let first: u8 = (a << 2) | (b >> 4);
                if s.len() == 2 {
                    Some(seq![first])
                } else {
                    match sextet(s[2]) {
                        None => None,
                        Some(c) => {
                            let second: u8 = (b << 4) | (c >> 2);
                            if s.len() == 3 {
                                Some(seq![first, second])
                            } else {
                                match sextet(s[3]) {
                                    None => None,
                                    Some(e) => {
                                        let third: u8 = (c << 6) | e;
                                        match decode_symbols(s.skip(4)) {
                                            None => None,
                                            Some(rest) => Some(seq![first, second, third] + rest),
                                        }
                                    },
                                }
                            }
                        },
                    }
                }
            },
            _ => None,
        }
    }
}

/// The bytes of `s` with every `=` removed.
pub open spec fn without_padding(s: Seq<u8>) -> Seq<u8> {
    s.filter(|b: u8| b != pad())
}

/// The characters whose code points are the given bytes.
pub open spec fn bytes_as_chars(b: Seq<u8>) -> Seq<char> {
    b.map_values(|x: u8| x as char)
}

/// What decoding a Base64 text gives: `None` when a group holds a byte
/// outside the alphabet or when the decoded bytes are not valid UTF-8.
pub open spec fn decoded_text(encoded: Seq<char>) -> Option<Seq<char>> {
    match decode_symbols(without_padding(encode_utf8(encoded))) {
        None => None,
        Some(bytes) => if valid_utf8(bytes) {
            Some(decode_utf8(bytes))
        } else {
            None
        },
    }
}

/// The Base64 text of the UTF-8 encoding of `text`.
pub open spec fn encoded_text(text: Seq<char>) -> Seq<char> {
    bytes_as_chars(encode_bytes(encode_utf8(text)))
}

fn symbol_of(v: u8) -> (r: u8)
    requires
        v < 64,
    ensures
        r == symbol(v),
{
    if v < 26 {
        v + 65
    } else if v < 52 {
        v + 71
    } else if v < 62 {
        v - 4
    } else if v == 62 {
        43
    } else {
        47
    }
}

fn sextet_of(b: u8) -> (r: Option<u8>)
    ensures
        r == sextet(b),
{
    if 65 <= b && b <= 90 {
        Some(b - 65)
    } else if 97 <= b && b <= 122 {
        Some(b - 71)
    } else if 48 <= b && b <= 57 {
        Some(b + 4)
    } else if b == 43 {
        Some(62)
    } else if b == 47 {
        Some(63)
    } else {
        None
    }
}

/// `String::from_utf8`: the string whose UTF-8 encoding is `bytes`, or no
/// string when `bytes` is not valid UTF-8.
#[verifier::external_body]
fn string_from_utf8(bytes: Vec<u8>) -> (r: Option<String>)
    ensures
        r is Some <==> valid_utf8(bytes@),
        r matches Some(s) ==> s@ == decode_utf8(bytes@),
{
    String::from_utf8(bytes).ok()
}

proof fn lemma_group_symbols_small(x: u8, y: u8, z: u8)
    ensures
        x >> 2 < 64,
        ((x & 3) << 4) | (y >> 4) < 64,
        ((y & 15) << 2) | (z >> 6) < 64,
        z & 63 < 64,
{
    assert(x >> 2 < 64) by (bit_vector);
    assert(((x & 3) << 4) | (y >> 4) < 64) by (bit_vector);
    assert(((y & 15) << 2) | (z >> 6) < 64) by (bit_vector);
    assert(z & 63 < 64) by (bit_vector);
}

/// Base64 text of the UTF-8 bytes of `data`, padded with `=` to a multiple
/// of four symbols.
pub fn base64_encode(data: &str) -> (out: String)
    ensures
        out@ == encoded_text(data@),
{
    let bytes = data.as_bytes();
    let n = bytes.len();
    let ghost d = bytes@;
    let mut out: Vec<char> = Vec::new();
    let mut i: usize = 0;
    assert(d.skip(0) == d);
    while i < n
        invariant
            d == bytes@,
            n == d.len(),
            i <= n,
            bytes_as_chars(encode_bytes(d)) == out@ + bytes_as_chars(encode_bytes(d.skip(i as int))),
        decreases n - i,
    {
        let ghost rest = d.skip(i as int);
        let x = bytes[i];
        let y: u8 = if n - i > 1 { bytes[i + 1] } else { 0 };
        let z: u8 = if n - i > 2 { bytes[i + 2] } else { 0 };
        proof {
            lemma_group_symbols_small(x, y, z);
        }
        let s0 = symbol_of(x >> 2);
        let s1 = symbol_of(((x & 3) << 4) | (y >> 4));
        let s2: u8 = if n - i > 1 { symbol_of(((y & 15) << 2) | (z >> 6)) } else { 61 };
        let s3: u8 = if n - i > 2 { symbol_of(z & 63) } else { 61 };
        out.push(s0 as char);
        out.push(s1 as char);
        out.push(s2 as char);
        out.push(s3 as char);
        let ghost group = if rest.len() <= 3 { rest } else { rest.take(3) };
        assert(encode_group(group) == seq![s0, s1, s2, s3]);
        if n - i <= 3 {
            assert(encode_bytes(rest) == seq![s0, s1, s2, s3]);
            assert(d.skip(n as int) == Seq::<u8>::empty());
            i = n;
        } else {
            assert(rest.skip(3) == d.skip(i + 3));
            assert(encode_bytes(rest) == seq![s0, s1, s2, s3] + encode_bytes(d.skip(i + 3)));
            i = i + 3;
        }
        assert(bytes_as_chars(encode_bytes(rest)) == seq![s0 as char, s1 as char, s2 as char, s3 as char]
            + bytes_as_chars(encode_bytes(d.skip(i as int))));
    }
    assert(encode_bytes(d.skip(n as int)) == Seq::<u8>::empty());
    string_of(out.as_slice())
}


/// The bytes of `s` with every `=` removed.
fn strip_padding(s: &[u8]) -> (out: Vec<u8>)
    ensures
        out@ == without_padding(s@),
{
    let mut out: Vec<u8> = Vec::new();
    for i in 0..s.len()
        invariant
            out@ == without_padding(s@.take(i as int)),
    {
        proof {
            reveal(Seq::filter);
            assert(s@.take(i + 1).drop_last() == s@.take(i as int));
        }
        if s[i] != 61 {
            out.push(s[i]);
        }
        proof {
            reveal(Seq::filter);
        }
    }
    assert(s@.take(s@.len() as int) == s@);
    out
}

/// Decodes Base64 text back to a string. `=` bytes are ignored wherever
/// they stand; the remaining symbols are read four at a time. Decoding
/// fails on a byte outside the alphabet in a decoded group, or when the
/// bytes decoded are not valid UTF-8.
pub fn base64_decode(encoded: &str) -> (res: Option<String>)
    ensures
        match res {
            Some(t) => decoded_text(encoded@) == Some(t@),
            None => decoded_text(encoded@) is None,
        },
{
    let chars = strip_padding(encoded.as_bytes());
    let n = chars.len();
    let ghost s = chars@;
    let mut out: Vec<u8> = Vec::new();
    let mut i: usize = 0;
    assert(s.skip(0) == s);
    while i < n
        invariant_except_break
            s == chars@,
            s == without_padding(encode_utf8(encoded@)),
            n == s.len(),
            i <= n,
            decode_symbols(s) == match decode_symbols(s.skip(i as int)) {
                None => None,
                Some(rest) => Some(out@ + rest),
            },
        ensures
            decode_symbols(s) == Some(out@),
        decreases n - i,
    {
        let ghost rest = s.skip(i as int);
        if n - i < 2 {
            assert(decode_symbols(rest) == Some(Seq::<u8>::empty()));
            assert(out@ + Seq::<u8>::empty() == out@);
            break;
        }
        assert(rest[0] == s[i as int] && rest[1] == s[i + 1]);
        let a = match sextet_of(chars[i]) {
            Some(v) => v,
            None => return None,
        };
        let b = match sextet_of(chars[i + 1]) {
            Some(v) => v,
            None => return None,
        };
        out.push((a << 2) | (b >> 4));
        if n - i > 2 {
            assert(rest[2] == s[i + 2]);
            let c = match sextet_of(chars[i + 2]) {
                Some(v) => v,
                None => return None,
            };
            out.push((b << 4) | (c >> 2));
            if n - i > 3 {
                assert(rest[3] == s[i + 3]);
                let e = match sextet_of(chars[i + 3]) {
                    Some(v) => v,
                    None => return None,
                };
                out.push((c << 6) | e);
                assert(rest.skip(4) == s.skip(i + 4));
                i = i + 4;
            } else {
                assert(decode_symbols(rest) == Some(seq![(a << 2) | (b >> 4), (b << 4) | (c >> 2)]));
                assert(s.skip(n as int) == Seq::<u8>::empty());
                i = n;
            }
        } else {
            assert(decode_symbols(rest) == Some(seq![(a << 2) | (b >> 4)]));
            assert(s.skip(n as int) == Seq::<u8>::empty());
            i = n;
        }
    }
    string_from_utf8(out)
}


proof fn lemma_symbol_roundtrip(v: u8)
    requires
        v < 64,
    ensures
        sextet(symbol(v)) == Some(v),
        symbol(v) != pad(),
        symbol(v) < 128,
{
}

proof fn lemma_group_bits(x: u8, y: u8, z: u8)
    ensures
        (((x >> 2) << 2) | ((((x & 3) << 4) | (y >> 4)) >> 4)) == x,
        (((((x & 3) << 4) | (y >> 4)) << 4) | ((((y & 15) << 2) | (z >> 6)) >> 2)) == y,
        (((((y & 15) << 2) | (z >> 6)) << 6) | (z & 63)) == z,
{
    assert((((x >> 2) << 2) | ((((x & 3) << 4) | (y >> 4)) >> 4)) == x) by (bit_vector);
    assert((((((x & 3) << 4) | (y >> 4)) << 4) | ((((y & 15) << 2) | (z >> 6)) >> 2)) == y)
        by (bit_vector);
    assert((((((y & 15) << 2) | (z >> 6)) << 6) | (z & 63)) == z) by (bit_vector);
}

proof fn lemma_encode_bytes_ascii(d: Seq<u8>)
    ensures
        forall|i: int| 0 <= i < encode_bytes(d).len() ==> #[trigger] encode_bytes(d)[i] < 128,
    decreases d.len(),
{
    if d.len() > 0 {
        let g = if d.len() <= 3 { d } else { d.take(3) };
        let y: u8 = if g.len() > 1 { g[1] } else { 0 };
        let z: u8 = if g.len() > 2 { g[2] } else { 0 };
        lemma_group_symbols_small(g[0], y, z);
        lemma_symbol_roundtrip(g[0] >> 2);
        lemma_symbol_roundtrip(((g[0] & 3) << 4) | (y >> 4));
        lemma_symbol_roundtrip(((y & 15) << 2) | (z >> 6));
        lemma_symbol_roundtrip(z & 63);
        if d.len() > 3 {
            lemma_encode_bytes_ascii(d.skip(3));
            let e = encode_bytes(d);
            assert forall|i: int| 0 <= i < e.len() implies #[trigger] e[i] < 128 by {
                if i >= 4 {
                    assert(e[i] == encode_bytes(d.skip(3))[i - 4]);
                }
            }
        }
    }
}

proof fn lemma_ascii_bytes_utf8(b: Seq<u8>)
    requires
        forall|i: int| 0 <= i < b.len() ==> #[trigger] b[i] < 128,
    ensures
        encode_utf8(bytes_as_chars(b)) == b,
{
    let c = bytes_as_chars(b);
    assert forall|i: int| 0 <= i < c.len() implies '\0' <= #[trigger] c[i] <= '\u{7f}' by {
        assert(c[i] == b[i] as char);
    }
    is_ascii_chars_encode_utf8(c);
    assert forall|i: int| 0 <= i < b.len() implies #[trigger] encode_utf8(c)[i] == b[i] by {
        let x = b[i];
        assert(c[i] == x as char);
        assert(((x as char) as u8) == x);
    }
    assert(encode_utf8(c) =~= b);
}

proof fn lemma_group_facts(g: Seq<u8>)
    requires
        1 <= g.len() <= 3,
    ensures
        ({
            let x = g[0];
            let y: u8 = if g.len() > 1 { g[1] } else { 0 };
            let z: u8 = if g.len() > 2 { g[2] } else { 0 };
            let v0 = x >> 2;
            let v1 = ((x & 3) << 4) | (y >> 4);
            let v2 = ((y & 15) << 2) | (z >> 6);
            let v3 = z & 63;
            &&& sextet(symbol(v0)) == Some(v0)
            &&& sextet(symbol(v1)) == Some(v1)
            &&& sextet(symbol(v2)) == Some(v2)
            &&& sextet(symbol(v3)) == Some(v3)
            &&& ((v0 << 2) | (v1 >> 4)) == x
            &&& ((v1 << 4) | (v2 >> 2)) == y
            &&& ((v2 << 6) | v3) == z
            &&& without_padding(encode_group(g)) == if g.len() == 1 {
                seq![symbol(v0), symbol(v1)]
            } else if g.len() == 2 {
                seq![symbol(v0), symbol(v1), symbol(v2)]
            } else {
                seq![symbol(v0), symbol(v1), symbol(v2), symbol(v3)]
            }
        }),
{
    let x = g[0];
    let y: u8 = if g.len() > 1 { g[1] } else { 0 };
    let z: u8 = if g.len() > 2 { g[2] } else { 0 };
    let v0 = x >> 2;
    let v1 = ((x & 3) << 4) | (y >> 4);
    let v2 = ((y & 15) << 2) | (z >> 6);
    let v3 = z & 63;
    lemma_group_symbols_small(x, y, z);
    lemma_symbol_roundtrip(v0);
    lemma_symbol_roundtrip(v1);
    lemma_symbol_roundtrip(v2);
    lemma_symbol_roundtrip(v3);
    lemma_group_bits(x, y, z);
    reveal_with_fuel(Seq::filter, 5);
    let e = encode_group(g);
    if g.len() == 1 {
        assert(without_padding(e) =~= seq![symbol(v0), symbol(v1)]);
    } else if g.len() == 2 {
        assert(without_padding(e) =~= seq![symbol(v0), symbol(v1), symbol(v2)]);
    } else {
        assert(without_padding(e) =~= seq![symbol(v0), symbol(v1), symbol(v2), symbol(v3)]);
    }
}

proof fn lemma_decode_short_group(g: Seq<u8>)
    requires
        1 <= g.len() <= 3,
    ensures
        decode_symbols(without_padding(encode_group(g))) == Some(g),
{
    lemma_group_facts(g);
    let s = without_padding(encode_group(g));
    if g.len() == 1 {
        assert(decode_symbols(s) == Some(seq![g[0]]));
        assert(seq![g[0]] =~= g);
    } else if g.len() == 2 {
        assert(decode_symbols(s) == Some(seq![g[0], g[1]]));
        assert(seq![g[0], g[1]] =~= g);
    } else {
        assert(s.skip(4) =~= Seq::<u8>::empty());
        assert(decode_symbols(s.skip(4)) == Some(Seq::<u8>::empty()));
        assert(decode_symbols(s) == Some(seq![g[0], g[1], g[2]] + Seq::<u8>::empty()));
        assert(seq![g[0], g[1], g[2]] + Seq::<u8>::empty() =~= g);
    }
}

proof fn lemma_decode_full_group(g: Seq<u8>, rest_syms: Seq<u8>, rest: Seq<u8>)
    requires
        g.len() == 3,
        decode_symbols(rest_syms) == Some(rest),
    ensures
        decode_symbols(without_padding(encode_group(g)) + rest_syms) == Some(g + rest),
{
    lemma_group_facts(g);
    let s = without_padding(encode_group(g)) + rest_syms;
    assert(s.skip(4) =~= rest_syms);
    assert(decode_symbols(s) == Some(seq![g[0], g[1], g[2]] + rest));
    assert(seq![g[0], g[1], g[2]] =~= g);
}

proof fn lemma_decode_encode_bytes(d: Seq<u8>)
    ensures
        decode_symbols(without_padding(encode_bytes(d))) == Some(d),
    decreases d.len(),
{
    if d.len() == 0 {
        reveal(Seq::filter);
        assert(d =~= Seq::<u8>::empty());
    } else if d.len() <= 3 {
        lemma_decode_short_group(d);
    } else {
        let tail = d.skip(3);
        lemma_decode_encode_bytes(tail);
        Seq::filter_distributes_over_add(encode_group(d.take(3)), encode_bytes(tail), |b: u8| b != pad());
        lemma_decode_full_group(d.take(3), without_padding(encode_bytes(tail)), tail);
        assert(d.take(3) + tail =~= d);
    }
}

/// Decoding the encoding of any string gives that string back.
pub proof fn base64_roundtrip(text: Seq<char>)
    ensures
        decoded_text(encoded_text(text)) == Some(text),
{
    let d = encode_utf8(text);
    lemma_encode_bytes_ascii(d);
    lemma_ascii_bytes_utf8(encode_bytes(d));
    lemma_decode_encode_bytes(d);
    encode_utf8_valid_utf8(text);
    encode_utf8_decode_utf8(text);
}


proof fn lemma_encode_bytes_concat(a: Seq<u8>, b: Seq<u8>)
    requires
        a.len() % 3 == 0,
    ensures
        encode_bytes(a + b) == encode_bytes(a) + encode_bytes(b),
    decreases a.len(),
{
    if a.len() == 0 {
        assert(a + b =~= b);
        assert(encode_bytes(a) + encode_bytes(b) =~= encode_bytes(b));
    } else if b.len() == 0 {
        assert(a + b =~= a);
        assert(encode_bytes(a) + encode_bytes(b) =~= encode_bytes(a));
    } else {
        let ab = a + b;
        assert(ab.take(3) =~= a.take(3));
        assert(ab.skip(3) =~= a.skip(3) + b);
        lemma_encode_bytes_concat(a.skip(3), b);
        if a.len() == 3 {
            assert(a.take(3) =~= a);
            assert(a.skip(3) + b =~= b);
            assert(encode_bytes(a.skip(3)) =~= Seq::<u8>::empty());
        }
        assert(encode_bytes(ab) =~= encode_bytes(a) + encode_bytes(b));
    }
}

proof fn lemma_encode_utf8_concat(a: Seq<char>, b: Seq<char>)
    ensures
        encode_utf8(a + b) == encode_utf8(a) + encode_utf8(b),
    decreases a.len(),
{
    if a.len() == 0 {
        assert(a + b =~= b);
        assert(encode_utf8(a) + encode_utf8(b) =~= encode_utf8(b));
    } else {
        assert((a + b)[0] == a[0]);
        assert((a + b).drop_first() =~= a.drop_first() + b);
        lemma_encode_utf8_concat(a.drop_first(), b);
        assert(encode_utf8(a + b) =~= encode_utf8(a) + encode_utf8(b));
    }
}

/// When the UTF-8 encoding of `a` is a whole number of three-byte groups,
/// the encoding of `a` followed by `b` is the encoding of `a` followed by
/// that of `b`.
pub proof fn base64_concat(a: Seq<char>, b: Seq<char>)
    requires
        encode_utf8(a).len() % 3 == 0,
    ensures
        encoded_text(a + b) == encoded_text(a) + encoded_text(b),
{
    lemma_encode_utf8_concat(a, b);
    lemma_encode_bytes_concat(encode_utf8(a), encode_utf8(b));
    assert(bytes_as_chars(encode_bytes(encode_utf8(a)) + encode_bytes(encode_utf8(b)))
        =~= encoded_text(a) + encoded_text(b));
}

/// The characters of `s` other than `=`.
pub open spec fn without_pad_chars(s: Seq<char>) -> Seq<char> {
    s.filter(|c: char| c != '=')
}

proof fn lemma_scalar_padding(c: char)
    ensures
        without_padding(encode_scalar(c as u32)) == if c == '=' {
            Seq::<u8>::empty()
        } else {
            encode_scalar(c as u32)
        },
{
    let v = c as u32;
    reveal_with_fuel(Seq::filter, 5);
    let e = encode_scalar(v);
    if has_width_1_encoding(v) {
        assert(v <= 0x7f ==> (v & 0x7f) as u8 as u32 == v) by (bit_vector);
        if c == '=' {
            assert(v == 61);
            assert(without_padding(e) =~= Seq::<u8>::empty());
        } else {
            assert(e[0] != 61);
            assert(without_padding(e) =~= e);
        }
    } else {
        assert(forall|x: u32| #![auto] (0x80u8 | (x & 0x3F) as u8) >= 0x80) by (bit_vector);
        assert(forall|x: u32| #![auto] (0x80u8 | ((x >> 6) & 0x3F) as u8) >= 0x80) by (bit_vector);
        assert(forall|x: u32| #![auto] (0x80u8 | ((x >> 12) & 0x3F) as u8) >= 0x80) by (bit_vector);
        assert(forall|x: u32| #![auto] (0xC0u8 | ((x >> 6) & 0x1F) as u8) >= 0x80) by (bit_vector);
        assert(forall|x: u32| #![auto] (0xE0u8 | ((x >> 12) & 0x0F) as u8) >= 0x80) by (bit_vector);
        assert(forall|x: u32| #![auto] (0xF0u8 | ((x >> 18) & 0x7) as u8) >= 0x80) by (bit_vector);
        assert(c != '=');
        assert(forall|i: int| 0 <= i < e.len() ==> e[i] >= 0x80);
        assert(without_padding(e) =~= e);
    }
}

proof fn lemma_padding_of_text(s: Seq<char>)
    ensures
        without_padding(encode_utf8(s)) == encode_utf8(without_pad_chars(s)),
    decreases s.len(),
{
    reveal(Seq::filter);
    if s.len() > 0 {
        let d = s.drop_last();
        let c = s.last();
        lemma_padding_of_text(d);
        assert(d + seq![c] =~= s);
        lemma_encode_utf8_concat(d, seq![c]);
        assert(seq![c].drop_first() =~= Seq::<char>::empty());
        assert(seq![c][0] == c);
        assert(encode_utf8(Seq::<char>::empty()) == Seq::<u8>::empty());
        assert(encode_scalar(c as u32) + Seq::<u8>::empty() =~= encode_scalar(c as u32));
        assert(encode_utf8(seq![c]) =~= encode_scalar(c as u32));
        Seq::filter_distributes_over_add(encode_utf8(d), encode_scalar(c as u32), |b: u8| b != pad());
        lemma_scalar_padding(c);
        if c != '=' {
            lemma_encode_utf8_concat(without_pad_chars(d), seq![c]);
            assert(without_pad_chars(s) == without_pad_chars(d).push(c));
            assert(without_pad_chars(d).push(c) =~= without_pad_chars(d) + seq![c]);
        } else {
            assert(without_pad_chars(s) == without_pad_chars(d));
            assert(encode_utf8(without_pad_chars(d)) + Seq::<u8>::empty() =~= encode_utf8(without_pad_chars(d)));
        }
    }
}

proof fn lemma_filter_twice<A>(s: Seq<A>, p: spec_fn(A) -> bool)
    ensures
        s.filter(p).filter(p) == s.filter(p),
    decreases s.len(),
{
    reveal(Seq::filter);
    if s.len() > 0 {
        lemma_filter_twice(s.drop_last(), p);
        let f = s.drop_last().filter(p);
        if p(s.last()) {
            assert(f.push(s.last()).drop_last() =~= f);
            assert(f.push(s.last()).last() == s.last());
        }
    }
}

/// Decoding ignores every `=`, wherever it stands: removing them changes
/// nothing.
pub proof fn decoding_ignores_padding(encoded: Seq<char>)
    ensures
        decoded_text(encoded) == decoded_text(without_pad_chars(encoded)),
{
    lemma_padding_of_text(encoded);
    lemma_padding_of_text(without_pad_chars(encoded));
    lemma_filter_twice(encoded, |c: char| c != '=');
}


/// The bytes of the Base64 alphabet (RFC 4648): the letters `A`-`Z` and
/// `a`-`z`, the digits, `+` and `/`.
pub open spec fn is_alphabet_byte(b: u8) -> bool {
    ||| 65 <= b <= 90
    ||| 97 <= b <= 122
    ||| 48 <= b <= 57
    ||| b == 43
    ||| b == 47
}

/// The symbols form the RFC 4648 alphabet: each of the 64 values has its
/// own symbol, every symbol is a letter, a digit, `+` or `/`, value 62 is
/// `+` and 63 is `/`; decoding accepts exactly the alphabet's bytes, and
/// reads each symbol back as its value.
pub proof fn symbols_are_the_alphabet()
    ensures
        forall|v: u8| v < 64 ==> is_alphabet_byte(#[trigger] symbol(v)) && sextet(symbol(v)) == Some(v),
        forall|b: u8| (#[trigger] sextet(b)) is Some <==> is_alphabet_byte(b),
        forall|b: u8| #[trigger] sextet(b) matches Some(v) ==> v < 64 && symbol(v) == b,
        forall|v: u8, w: u8| v < 64 && w < 64 && #[trigger] symbol(v) == #[trigger] symbol(w) ==> v == w,
        symbol(62) == 43 && symbol(63) == 47,
{
}

proof fn lemma_encoded_bytes_in_alphabet(d: Seq<u8>)
    ensures
        forall|i: int| 0 <= i < encode_bytes(d).len() ==> is_alphabet_byte(#[trigger] encode_bytes(d)[i])
            || encode_bytes(d)[i] == pad(),
    decreases d.len(),
{
    if d.len() > 0 {
        let g = if d.len() <= 3 { d } else { d.take(3) };
        let y: u8 = if g.len() > 1 { g[1] } else { 0 };
        let z: u8 = if g.len() > 2 { g[2] } else { 0 };
        lemma_group_symbols_small(g[0], y, z);
        if d.len() > 3 {
            lemma_encoded_bytes_in_alphabet(d.skip(3));
            let e = encode_bytes(d);
            assert forall|i: int| 0 <= i < e.len() implies is_alphabet_byte(#[trigger] e[i]) || e[i] == pad() by {
                if i >= 4 {
                    assert(e[i] == encode_bytes(d.skip(3))[i - 4]);
                }
            }
        }
    }
}

/// Every character of an encoding is a letter, a digit, `+`, `/` or `=`.
pub proof fn encoding_uses_only_the_alphabet(text: Seq<char>)
    ensures
        forall|i: int| 0 <= i < encoded_text(text).len() ==> {
            let c = #[trigger] encoded_text(text)[i];
            ('A' <= c <= 'Z') || ('a' <= c <= 'z') || ('0' <= c <= '9') || c == '+' || c == '/' || c == '='
        },
{
    let d = encode_utf8(text);
    lemma_encoded_bytes_in_alphabet(d);
    assert forall|i: int| 0 <= i < encoded_text(text).len() implies {
        let c = #[trigger] encoded_text(text)[i];
        ('A' <= c <= 'Z') || ('a' <= c <= 'z') || ('0' <= c <= '9') || c == '+' || c == '/' || c == '='
    } by {
        let b = encode_bytes(d)[i];
        assert(encoded_text(text)[i] == b as char);
        assert(is_alphabet_byte(b) || b == pad());
        assert((b as char) as u32 == b as u32);
    }
}

} // verus!
