//! Standard-alphabet base64, as used for the player's raw storage blobs.
//!
//! Encoding always pads with `=`. Decoding skips ASCII whitespace, wants a
//! multiple of four remaining bytes, and accepts `=` only in the last two
//! places of a quad; a `=` in third place still lets a fourth digit through.
use vstd::prelude::*;
use crate::text::push_char;
use vstd::string::StringSliceAdditionalSpecFns;
use vstd::utf8::{encode_utf8, is_ascii_chars};

verus! {

/// The code of the base64 digit for a sextet `v` (`0 <= v < 64`).
pub open spec fn b64_digit_code(v: int) -> u8 {
    if v < 26 {
        (65 + v) as u8
    } else if v < 52 {
        (97 + (v - 26)) as u8
    } else if v < 62 {
        (48 + (v - 52)) as u8
    } else if v == 62 {
        43u8
    } else {
        47u8
    }
}

/// The base64 digit for a sextet.
pub open spec fn b64_digit(v: int) -> char {
    b64_digit_code(v) as char
}

/// Encoding of one full group of three bytes.
pub open spec fn encode_triple(x0: u8, x1: u8, x2: u8) -> Seq<char> {
    let (b0, b1, b2) = (x0 as int, x1 as int, x2 as int);
    seq![
        b64_digit(b0 / 4),
        b64_digit((b0 % 4) * 16 + b1 / 16),
        b64_digit((b1 % 16) * 4 + b2 / 64),
        b64_digit(b2 % 64),
    ]
}

/// Base64 encoding of a byte sequence, padded with `=`.
pub open spec fn b64_encode(b: Seq<u8>) -> Seq<char>
    decreases b.len(),
{
    if b.len() == 0 {
        seq![]
    } else if b.len() == 1 {
        let b0 = b[0] as int;
        seq![b64_digit(b0 / 4), b64_digit((b0 % 4) * 16), '=', '=']
    } else if b.len() == 2 {
        let (b0, b1) = (b[0] as int, b[1] as int);
        seq![b64_digit(b0 / 4), b64_digit((b0 % 4) * 16 + b1 / 16), b64_digit((b1 % 16) * 4), '=']
    } else {
        encode_triple(b[0], b[1], b[2]) + b64_encode(b.skip(3))
    }
}

/// The sextet a base64 digit stands for; `None` for any other byte.
pub open spec fn b64_value(c: u8) -> Option<u8> {
    if 65 <= c <= 90 {
        Some((c - 65) as u8)
    } else if 97 <= c <= 122 {
        Some((c - 71) as u8)
    } else if 48 <= c <= 57 {
        Some((c + 4) as u8)
    } else if c == 43 {
        Some(62u8)
    } else if c == 47 {
        Some(63u8)
    } else {
        None
    }
}

/// ASCII whitespace as std's `u8::is_ascii_whitespace` defines it.
pub open spec fn is_ascii_ws(b: u8) -> bool {
    b == 32 || b == 9 || b == 10 || b == 12 || b == 13
}

/// The bytes that are not ASCII whitespace, in order.
pub open spec fn strip_ascii_ws(s: Seq<u8>) -> Seq<u8>
    decreases s.len(),
{
    if s.len() == 0 {
        s
    } else if is_ascii_ws(s.last()) {
        strip_ascii_ws(s.drop_last())
    } else {
        strip_ascii_ws(s.drop_last()).push(s.last())
    }
}

/// Why a base64 text was refused.
#[derive(PartialEq, Eq, Structural, Clone, Copy, Debug)]
pub enum B64Error {
    /// A byte that is not a digit where one is needed.
    BadChar(u8),
    /// The count of non-whitespace bytes is not a multiple of four.
    BadLength,
}

/// The sextet of a digit in a quad, where `=` counts as zero in the places
/// that allow it.
pub open spec fn quad_value(c: u8, pad_ok: bool) -> Result<u8, B64Error> {
    if pad_ok && c == 61 {
        Ok(0u8)
    } else {
        match b64_value(c) {
            Some(v) => Ok(v),
            None => Err(B64Error::BadChar(c)),
        }
    }
}

/// Decoding of one quad `a b c d`: the first byte always, the second unless
/// `c` is `=`, the third unless `d` is `=`.
pub open spec fn decode_quad(a: u8, b: u8, c: u8, d: u8) -> Result<Seq<u8>, B64Error> {
    match quad_value(a, false) {
        Err(e) => Err(e),
        Ok(va) => match quad_value(b, false) {
            Err(e) => Err(e),
            Ok(vb) => match quad_value(c, true) {
                Err(e) => Err(e),
                Ok(vc) => match quad_value(d, true) {
                    Err(e) => Err(e),
                    Ok(vd) => Ok(
                        seq![(va * 4 + vb / 16) as u8]
                        + (if c != 61 { seq![((vb % 16) * 16 + vc / 4) as u8] } else { seq![] })
                        + (if d != 61 { seq![((vc % 4) * 64 + vd) as u8] } else { seq![] }),
                    ),
                },
            },
        },
    }
}

/// `out` put in front of a decoding result.
pub open spec fn prepend(out: Seq<u8>, r: Result<Seq<u8>, B64Error>) -> Result<Seq<u8>, B64Error> {
    match r {
        Ok(rest) => Ok(out + rest),
        Err(e) => Err(e),
    }
}

/// Decoding of consecutive quads; the first refused quad decides the error.
pub open spec fn decode_quads(s: Seq<u8>) -> Result<Seq<u8>, B64Error>
    decreases s.len(),
{
    if s.len() < 4 {
        Ok(seq![])
    } else {
        match decode_quad(s[0], s[1], s[2], s[3]) {
            Err(e) => Err(e),
            Ok(q) => prepend(q, decode_quads(s.skip(4))),
        }
    }
}

/// Base64 decoding of the bytes of a text.
pub open spec fn b64_decode(input: Seq<u8>) -> Result<Seq<u8>, B64Error> {
    let s = strip_ascii_ws(input);
    if s.len() % 4 != 0 {
        Err(B64Error::BadLength)
    } else {
        decode_quads(s)
    }
}

/// The message that a refusal is reported with.
pub open spec fn b64_error_text(e: B64Error) -> Seq<char> {
    match e {
        B64Error::BadChar(c) => "bad base64 char: "@.push(c as char),
        B64Error::BadLength => "base64 length"@,
    }
}

fn digit(v: u8) -> (c: char)
    requires
        v < 64,
    ensures
        c == b64_digit(v as int),
{
    let code: u8 = if v < 26 {
        65 + v
    } else if v < 52 {
        71 + v
    } else if v < 62 {
        v - 4
    } else if v == 62 {
        43
    } else {
        47
    };
    code as char
}

/// Encodes bytes as padded standard base64.
pub fn bytes_to_b64(bytes: &[u8]) -> (out: String)
    ensures
        out@ == b64_encode(bytes@),
{
    let mut out = String::new();
    let mut i: usize = 0;
    assert(bytes@.skip(0) =~= bytes@);
    assert(out@ + b64_encode(bytes@) =~= b64_encode(bytes@));
    while bytes.len() - i >= 3
        invariant
            i <= bytes.len(),
            b64_encode(bytes@) == out@ + b64_encode(bytes@.skip(i as int)),
        decreases bytes.len() - i,
    {
        let b0 = bytes[i];
        let b1 = bytes[i + 1];
        let b2 = bytes[i + 2];
        let ghost before = out@;
        push_char(&mut out, digit(b0 / 4));
        push_char(&mut out, digit((b0 % 4) * 16 + b1 / 16));
        push_char(&mut out, digit((b1 % 16) * 4 + b2 / 64));
        push_char(&mut out, digit(b2 % 64));
        proof {
            let rest = bytes@.skip(i as int);
            assert(rest[0] == b0 && rest[1] == b1 && rest[2] == b2);
            assert(rest.skip(3) =~= bytes@.skip(i + 3));
            assert(out@ =~= before + encode_triple(b0, b1, b2));
        }
        i = i + 3;
    }
    let ghost before = out@;
    let rem = bytes.len() - i;
    if rem == 1 {
        let b0 = bytes[i];
        push_char(&mut out, digit(b0 / 4));
        push_char(&mut out, digit((b0 % 4) * 16));
        push_char(&mut out, '=');
        push_char(&mut out, '=');
        assert(bytes@.skip(i as int)[0] == b0);
        assert(out@ =~= before + b64_encode(bytes@.skip(i as int)));
    } else if rem == 2 {
        let b0 = bytes[i];
        let b1 = bytes[i + 1];
        push_char(&mut out, digit(b0 / 4));
        push_char(&mut out, digit((b0 % 4) * 16 + b1 / 16));
        push_char(&mut out, digit((b1 % 16) * 4));
        push_char(&mut out, '=');
        assert(bytes@.skip(i as int)[0] == b0 && bytes@.skip(i as int)[1] == b1);
        assert(out@ =~= before + b64_encode(bytes@.skip(i as int)));
    } else {
        assert(out@ =~= before + b64_encode(bytes@.skip(i as int)));
    }
    out
}

fn value_of(c: u8, pad_ok: bool) -> (r: Result<u8, B64Error>)
    ensures
        r == quad_value(c, pad_ok),
        r matches Ok(v) ==> v < 64,
{
    if pad_ok && c == 61 {
        Ok(0)
    } else if 65 <= c && c <= 90 {
        Ok(c - 65)
    } else if 97 <= c && c <= 122 {
        Ok(c - 71)
    } else if 48 <= c && c <= 57 {
        Ok(c + 4)
    } else if c == 43 {
        Ok(62)
    } else if c == 47 {
        Ok(63)
    } else {
        Err(B64Error::BadChar(c))
    }
}

/// Decodes one quad onto the end of `out`.
fn decode_quad_into(a: u8, b: u8, c: u8, d: u8, out: &mut Vec<u8>) -> (r: Result<(), B64Error>)
    ensures
        match decode_quad(a, b, c, d) {
            Ok(q) => r is Ok && final(out)@ == old(out)@ + q,
            Err(e) => r == Err::<(), B64Error>(e),
        },
{
    let va = match value_of(a, false) {
        Ok(v) => v,
        Err(e) => return Err(e),
    };
    let vb = match value_of(b, false) {
        Ok(v) => v,
        Err(e) => return Err(e),
    };
    let vc = match value_of(c, true) {
        Ok(v) => v,
        Err(e) => return Err(e),
    };
    let vd = match value_of(d, true) {
        Ok(v) => v,
        Err(e) => return Err(e),
    };
    let ghost before = out@;
    out.push(va * 4 + vb / 16);
    if c != 61 {
        out.push((vb % 16) * 16 + vc / 4);
    }
    if d != 61 {
        out.push((vc % 4) * 64 + vd);
    }
    assert(out@ =~= before + decode_quad(a, b, c, d).unwrap());
    Ok(())
}

/// Decodes base64 bytes, skipping ASCII whitespace.
pub fn decode_base64(input: &[u8]) -> (r: Result<Vec<u8>, B64Error>)
    ensures
        match b64_decode(input@) {
            Ok(v) => r matches Ok(out) && out@ == v,
            Err(e) => r == Err::<Vec<u8>, B64Error>(e),
        },
{
    let mut s: Vec<u8> = Vec::new();
    let mut i: usize = 0;
    while i < input.len()
        invariant
            i <= input.len(),
            s@ == strip_ascii_ws(input@.take(i as int)),
        decreases input.len() - i,
    {
        let b = input[i];
        proof {
            assert(input@.take(i + 1).drop_last() =~= input@.take(i as int));
            assert(input@.take(i + 1).last() == b);
        }
        if !(b == 32 || b == 9 || b == 10 || b == 12 || b == 13) {
            s.push(b);
        }
        i = i + 1;
    }
    assert(input@.take(input.len() as int) =~= input@);
    if s.len() % 4 != 0 {
        return Err(B64Error::BadLength);
    }
    let mut out: Vec<u8> = Vec::new();
    let mut j: usize = 0;
    proof {
        assert(s@.skip(0) =~= s@);
        match decode_quads(s@) {
            Ok(x) => assert(out@ + x =~= x),
            Err(_) => {},
        }
    }
    while j < s.len()
        invariant
            j <= s.len(),
            j % 4 == 0,
            s.len() % 4 == 0,
            s@ == strip_ascii_ws(input@),
            decode_quads(s@) == prepend(out@, decode_quads(s@.skip(j as int))),
        decreases s.len() - j,
    {
        let a = s[j];
        let b = s[j + 1];
        let c = s[j + 2];
        let d = s[j + 3];
        let ghost rest = s@.skip(j as int);
        proof {
            assert(rest[0] == a && rest[1] == b && rest[2] == c && rest[3] == d);
            assert(rest.skip(4) =~= s@.skip(j + 4));
        }
        let ghost before = out@;
        match decode_quad_into(a, b, c, d, &mut out) {
            Ok(()) => {},
            Err(e) => {
                assert(decode_quads(rest) == Err::<Seq<u8>, B64Error>(e));
                return Err(e);
            },
        }
        proof {
            let q = decode_quad(a, b, c, d).unwrap();
            match decode_quads(s@.skip(j + 4)) {
                Ok(x) => assert(before + (q + x) =~= out@ + x),
                Err(_) => {},
            }
        }
        j = j + 4;
    }
    assert(s@.skip(j as int).len() == 0);
    assert(out@ + seq![] =~= out@);
    Ok(out)
}

impl B64Error {
    /// The message that the player's bridge reports for this refusal.
    pub fn message(&self) -> (m: String)
        ensures
            m@ == b64_error_text(*self),
    {
        match self {
            B64Error::BadChar(c) => {
                let mut m = String::from_str("bad base64 char: ");
                push_char(&mut m, *c as char);
                m
            },
            B64Error::BadLength => String::from_str("base64 length"),
        }
    }
}

/// Decodes the base64 text of a storage blob; the error is a message.
pub fn b64_to_bytes(s: &str) -> (r: Result<Vec<u8>, String>)
    ensures
        match b64_decode(s.spec_bytes()) {
            Ok(v) => r matches Ok(out) && out@ == v,
            Err(e) => r matches Err(m) && m@ == b64_error_text(e),
        },
{
    match decode_base64(s.as_bytes()) {
        Ok(v) => Ok(v),
        Err(e) => Err(e.message()),
    }
}

/// The bytes of a run of ASCII characters.
pub open spec fn ascii_bytes(cs: Seq<char>) -> Seq<u8> {
    Seq::new(cs.len(), |i: int| cs[i] as u8)
}

proof fn lemma_digit(v: int)
    requires
        0 <= v < 64,
    ensures
        b64_digit(v) as u8 == b64_digit_code(v),
        (b64_digit(v) as u32) < 128,
        b64_value(b64_digit_code(v)) == Some(v as u8),
        !is_ascii_ws(b64_digit_code(v)),
        b64_digit_code(v) != 61,
{
}

proof fn lemma_triple_arith(b0: int, b1: int, b2: int)
    requires
        0 <= b0 < 256,
        0 <= b1 < 256,
        0 <= b2 < 256,
    ensures
        ({
            let v0 = b0 / 4;
            let v1 = (b0 % 4) * 16 + b1 / 16;
            let v2 = (b1 % 16) * 4 + b2 / 64;
            let v3 = b2 % 64;
            &&& 0 <= v0 < 64 && 0 <= v1 < 64 && 0 <= v2 < 64 && 0 <= v3 < 64
            &&& v0 * 4 + v1 / 16 == b0
            &&& (v1 % 16) * 16 + v2 / 4 == b1
            &&& (v2 % 4) * 64 + v3 == b2
        }),
{
    assert(0 <= b0 / 4 < 64 && b0 == 4 * (b0 / 4) + b0 % 4) by (nonlinear_arith)
        requires 0 <= b0 < 256;
    assert(b1 == 16 * (b1 / 16) + b1 % 16 && 0 <= b1 / 16 < 16) by (nonlinear_arith)
        requires 0 <= b1 < 256;
    assert(b2 == 64 * (b2 / 64) + b2 % 64 && 0 <= b2 / 64 < 4) by (nonlinear_arith)
        requires 0 <= b2 < 256;
}

/// Every encoding is made of whole quads of ASCII digits and `=`.
proof fn lemma_encode_shape(b: Seq<u8>)
    ensures
        b64_encode(b).len() == 4 * ((b.len() + 2) / 3),
        is_ascii_chars(b64_encode(b)),
        forall|i: int| 0 <= i < b64_encode(b).len() ==>
            !is_ascii_ws(#[trigger] ascii_bytes(b64_encode(b))[i]),
    decreases b.len(),
{
    let e = b64_encode(b);
    if b.len() == 0 {
    } else if b.len() <= 2 {
        lemma_triple_arith(b[0] as int, if b.len() == 2 { b[1] as int } else { 0 }, 0);
        lemma_digit(b[0] as int / 4);
        if b.len() == 1 {
            lemma_digit((b[0] as int % 4) * 16);
        } else {
            lemma_digit((b[0] as int % 4) * 16 + b[1] as int / 16);
            lemma_digit((b[1] as int % 16) * 4);
        }
        assert forall|i: int| 0 <= i < e.len() implies '\0' <= #[trigger] e[i] <= '\u{7f}' by {}
    } else {
        lemma_encode_shape(b.skip(3));
        let (b0, b1, b2) = (b[0] as int, b[1] as int, b[2] as int);
        lemma_triple_arith(b0, b1, b2);
        lemma_digit(b0 / 4);
        lemma_digit((b0 % 4) * 16 + b1 / 16);
        lemma_digit((b1 % 16) * 4 + b2 / 64);
        lemma_digit(b2 % 64);
        let head = encode_triple(b[0], b[1], b[2]);
        let tail = b64_encode(b.skip(3));
        assert(e == head + tail);
        assert forall|i: int| 0 <= i < e.len() implies '\0' <= #[trigger] e[i] <= '\u{7f}' by {
            if i >= 4 {
                assert(e[i] == tail[i - 4]);
            }
        }
        assert forall|i: int| 0 <= i < e.len() implies !is_ascii_ws(#[trigger] ascii_bytes(e)[i]) by {
            if i >= 4 {
                assert(e[i] == tail[i - 4]);
                assert(ascii_bytes(tail)[i - 4] == tail[i - 4] as u8);
            }
        }
    }
}

proof fn lemma_strip_identity(s: Seq<u8>)
    requires
        forall|i: int| 0 <= i < s.len() ==> !is_ascii_ws(#[trigger] s[i]),
    ensures
        strip_ascii_ws(s) == s,
    decreases s.len(),
{
    if s.len() > 0 {
        lemma_strip_identity(s.drop_last());
        assert(s.drop_last().push(s.last()) =~= s);
    }
}

proof fn lemma_decode_encode(b: Seq<u8>)
    ensures
        decode_quads(ascii_bytes(b64_encode(b))) == Ok::<Seq<u8>, B64Error>(b),
    decreases b.len(),
{
    let e = b64_encode(b);
    let s = ascii_bytes(e);
    if b.len() == 0 {
        assert(b =~= seq![]);
        assert(s.len() == 0);
    } else if b.len() <= 2 {
        let b0 = b[0] as int;
        let b1 = if b.len() == 2 { b[1] as int } else { 0 };
        lemma_triple_arith(b0, b1, 0);
        lemma_digit(b0 / 4);
        lemma_digit((b0 % 4) * 16 + b1 / 16);
        lemma_digit((b1 % 16) * 4);
        assert(s.len() == 4);
        assert(s.skip(4).len() == 0);
        assert(decode_quads(s.skip(4)) == Ok::<Seq<u8>, B64Error>(seq![]));
        assert(decode_quad(s[0], s[1], s[2], s[3]) is Ok);
        assert(decode_quad(s[0], s[1], s[2], s[3]).unwrap() =~= b);
        assert(decode_quad(s[0], s[1], s[2], s[3]).unwrap() + seq![] =~= b);
    } else {
        let (b0, b1, b2) = (b[0] as int, b[1] as int, b[2] as int);
        lemma_triple_arith(b0, b1, b2);
        lemma_digit(b0 / 4);
        lemma_digit((b0 % 4) * 16 + b1 / 16);
        lemma_digit((b1 % 16) * 4 + b2 / 64);
        lemma_digit(b2 % 64);
        lemma_decode_encode(b.skip(3));
        let tail = b64_encode(b.skip(3));
        assert(e == encode_triple(b[0], b[1], b[2]) + tail);
        assert(s.skip(4) =~= ascii_bytes(tail));
        lemma_encode_shape(b.skip(3));
        assert(s.len() >= 4);
        assert(decode_quad(s[0], s[1], s[2], s[3]) is Ok);
        assert(decode_quad(s[0], s[1], s[2], s[3]).unwrap() =~= b.take(3));
        assert(decode_quads(s.skip(4)) == Ok::<Seq<u8>, B64Error>(b.skip(3)));
        assert(b.take(3) + b.skip(3) =~= b);
    }
}

/// Decoding the text that encoding gives back yields the original bytes.
pub proof fn lemma_b64_roundtrip(data: Seq<u8>)
    ensures
        b64_decode(encode_utf8(b64_encode(data))) == Ok::<Seq<u8>, B64Error>(data),
{
    let e = b64_encode(data);
    broadcast use vstd::utf8::is_ascii_chars_encode_utf8;

    lemma_encode_shape(data);
    assert(encode_utf8(e) =~= ascii_bytes(e));
    lemma_strip_identity(ascii_bytes(e));
    lemma_decode_encode(data);
}

/// An encoding is four characters for every started group of three bytes,
/// all of them digits or `=`.
pub proof fn lemma_b64_encoded_len(data: Seq<u8>)
    ensures
        b64_encode(data).len() == 4 * ((data.len() + 2) / 3),
        is_ascii_chars(b64_encode(data)),
{
    lemma_encode_shape(data);
}

proof fn lemma_strip_leaves_no_ws(s: Seq<u8>)
    ensures
        forall|i: int| 0 <= i < strip_ascii_ws(s).len() ==> !is_ascii_ws(#[trigger] strip_ascii_ws(s)[i]),
    decreases s.len(),
{
    if s.len() > 0 {
        let d = strip_ascii_ws(s.drop_last());
        lemma_strip_leaves_no_ws(s.drop_last());
        if !is_ascii_ws(s.last()) {
            assert forall|i: int| 0 <= i < d.len() implies #[trigger] d.push(s.last())[i] == d[i] by {}
        }
    }
}

/// Decoding skips ASCII whitespace wherever it stands: a text decodes to
/// what the same text with its whitespace taken out decodes to.
pub proof fn lemma_b64_decode_skips_whitespace(s: Seq<u8>)
    ensures
        b64_decode(s) == b64_decode(strip_ascii_ws(s)),
{
    lemma_strip_leaves_no_ws(s);
    lemma_strip_identity(strip_ascii_ws(s));
}

/// Byte `i` of a whitespace-free text cannot stand where it is: a digit is
/// needed in the first two places of a quad, a digit or `=` in the last
/// two.
pub open spec fn bad_at(t: Seq<u8>, i: int) -> bool {
    if i % 4 < 2 {
        b64_value(t[i]) is None
    } else {
        t[i] != 61 && b64_value(t[i]) is None
    }
}

proof fn lemma_first_quad(t: Seq<u8>)
    requires
        t.len() >= 4,
    ensures
        decode_quad(t[0], t[1], t[2], t[3]) is Ok <==> !bad_at(t, 0) && !bad_at(t, 1) && !bad_at(t, 2) && !bad_at(
            t,
            3,
        ),
        bad_at(t, 0) ==> decode_quad(t[0], t[1], t[2], t[3]) == Err::<Seq<u8>, B64Error>(B64Error::BadChar(t[0])),
        !bad_at(t, 0) && bad_at(t, 1) ==> decode_quad(t[0], t[1], t[2], t[3]) == Err::<Seq<u8>, B64Error>(
            B64Error::BadChar(t[1]),
        ),
        !bad_at(t, 0) && !bad_at(t, 1) && bad_at(t, 2) ==> decode_quad(t[0], t[1], t[2], t[3]) == Err::<
            Seq<u8>,
            B64Error,
        >(B64Error::BadChar(t[2])),
        !bad_at(t, 0) && !bad_at(t, 1) && !bad_at(t, 2) && bad_at(t, 3) ==> decode_quad(t[0], t[1], t[2], t[3])
            == Err::<Seq<u8>, B64Error>(B64Error::BadChar(t[3])),
{
}

proof fn lemma_bad_shift(t: Seq<u8>)
    requires
        t.len() >= 4,
    ensures
        forall|i: int| 0 <= i < t.len() - 4 ==> #[trigger] bad_at(t.skip(4), i) == bad_at(t, i + 4),
{
    assert forall|i: int| 0 <= i < t.len() - 4 implies #[trigger] bad_at(t.skip(4), i) == bad_at(t, i + 4) by {
        assert(t.skip(4)[i] == t[i + 4]);
        assert((i + 4) % 4 == i % 4);
    }
}

proof fn lemma_quads_first_error(t: Seq<u8>)
    requires
        t.len() % 4 == 0,
    ensures
        decode_quads(t) is Ok <==> (forall|i: int| 0 <= i < t.len() ==> !#[trigger] bad_at(t, i)),
        forall|i: int|
            0 <= i < t.len() && #[trigger] bad_at(t, i) && (forall|j: int| 0 <= j < i ==> !bad_at(t, j))
                ==> decode_quads(t) == Err::<Seq<u8>, B64Error>(B64Error::BadChar(t[i])),
    decreases t.len(),
{
    if t.len() >= 4 {
        let r = t.skip(4);
        lemma_quads_first_error(r);
        lemma_bad_shift(t);
        lemma_first_quad(t);
        if forall|i: int| 0 <= i < t.len() ==> !#[trigger] bad_at(t, i) {
            assert(!bad_at(t, 0) && !bad_at(t, 1) && !bad_at(t, 2) && !bad_at(t, 3));
            assert forall|i: int| 0 <= i < r.len() implies !#[trigger] bad_at(r, i) by {
                assert(!bad_at(t, i + 4));
            }
        }
        if decode_quads(t) is Ok {
            assert forall|i: int| 0 <= i < t.len() implies !#[trigger] bad_at(t, i) by {
                if i >= 4 {
                    assert(bad_at(r, i - 4) == bad_at(t, i));
                }
            }
        }
        assert forall|i: int|
            0 <= i < t.len() && #[trigger] bad_at(t, i) && (forall|j: int| 0 <= j < i ==> !bad_at(t, j)) implies
            decode_quads(t) == Err::<Seq<u8>, B64Error>(B64Error::BadChar(t[i])) by {
            if i >= 4 {
                assert(!bad_at(t, 0) && !bad_at(t, 1) && !bad_at(t, 2) && !bad_at(t, 3));
                assert(bad_at(r, i - 4));
                assert(r[i - 4] == t[i]);
                assert forall|j: int| 0 <= j < i - 4 implies !bad_at(r, j) by {
                    assert(!bad_at(t, j + 4));
                }
            } else if i == 1 {
                assert(!bad_at(t, 0));
            } else if i == 2 {
                assert(!bad_at(t, 0) && !bad_at(t, 1));
            } else if i == 3 {
                assert(!bad_at(t, 0) && !bad_at(t, 1) && !bad_at(t, 2));
            }
        }
    }
}

/// Which text is refused, and with which error: once whitespace is taken
/// out, a length that is not a multiple of four gives `BadLength`;
/// otherwise the text decodes exactly when no byte is out of place
/// (`bad_at`), and the first byte out of place is the one reported.
pub proof fn lemma_b64_first_error(input: Seq<u8>)
    ensures
        strip_ascii_ws(input).len() % 4 != 0 ==> b64_decode(input) == Err::<Seq<u8>, B64Error>(
            B64Error::BadLength,
        ),
        strip_ascii_ws(input).len() % 4 == 0 ==> (b64_decode(input) is Ok <==> (forall|i: int|
            0 <= i < strip_ascii_ws(input).len() ==> !#[trigger] bad_at(strip_ascii_ws(input), i))),
        forall|i: int|
            strip_ascii_ws(input).len() % 4 == 0 && 0 <= i < strip_ascii_ws(input).len() && #[trigger] bad_at(
                strip_ascii_ws(input),
                i,
            ) && (forall|j: int| 0 <= j < i ==> !bad_at(strip_ascii_ws(input), j)) ==> b64_decode(input) == Err::<
                Seq<u8>,
                B64Error,
            >(B64Error::BadChar(strip_ascii_ws(input)[i])),
{
    let t = strip_ascii_ws(input);
    if t.len() % 4 == 0 {
        lemma_quads_first_error(t);
    }
}

/// Encoding splits at any multiple of three bytes: the encoding of `a`
/// followed by `b` is that of `a` followed by that of `b`.
pub proof fn lemma_b64_encode_concat(a: Seq<u8>, b: Seq<u8>)
    requires
        a.len() % 3 == 0,
    ensures
        b64_encode(a + b) == b64_encode(a) + b64_encode(b),
    decreases a.len(),
{
    if a.len() == 0 {
        assert(a + b =~= b);
        assert(b64_encode(a) + b64_encode(b) =~= b64_encode(b));
    } else {
        let ab = a + b;
        assert(ab.skip(3) =~= a.skip(3) + b);
        assert(ab[0] == a[0] && ab[1] == a[1] && ab[2] == a[2]);
        lemma_b64_encode_concat(a.skip(3), b);
        assert(b64_encode(ab) =~= encode_triple(a[0], a[1], a[2]) + (b64_encode(a.skip(3)) + b64_encode(b)));
    }
}

/// The encoder writes the standard RFC 4648 alphabet: sextet `v` is the
/// letter `A` + v below 26, `a` + (v - 26) below 52, the digit `0` + (v -
/// 52) below 62, then `+` and `/`; and the decoder reads each of these
/// characters back as its sextet, and no other byte as a digit.
pub proof fn lemma_b64_standard_alphabet()
    ensures
        forall|v: int| 0 <= v < 26 ==> #[trigger] b64_digit_code(v) == 65 + v,
        forall|v: int| 26 <= v < 52 ==> #[trigger] b64_digit_code(v) == 97 + (v - 26),
        forall|v: int| 52 <= v < 62 ==> #[trigger] b64_digit_code(v) == 48 + (v - 52),
        b64_digit_code(62) == 43,
        b64_digit_code(63) == 47,
        forall|v: int| 0 <= v < 64 ==> #[trigger] b64_digit(v) as u32 == b64_digit_code(v) as u32,
        forall|c: u8| 65 <= c <= 90 ==> #[trigger] b64_value(c) == Some((c - 65) as u8),
        forall|c: u8| 97 <= c <= 122 ==> #[trigger] b64_value(c) == Some((c - 97 + 26) as u8),
        forall|c: u8| 48 <= c <= 57 ==> #[trigger] b64_value(c) == Some((c - 48 + 52) as u8),
        b64_value(43) == Some(62u8),
        b64_value(47) == Some(63u8),
        forall|c: u8|
            !(65 <= c <= 90 || 97 <= c <= 122 || 48 <= c <= 57 || c == 43 || c == 47) ==> #[trigger] b64_value(c)
                is None,
{
    assert forall|v: int| 0 <= v < 64 implies #[trigger] b64_digit(v) as u32 == b64_digit_code(v) as u32 by {
    }
}

} // verus!
