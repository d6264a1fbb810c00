//! Url-safe base64 without padding.

use vstd::arithmetic::div_mod::lemma_fundamental_div_mod_converse;
use vstd::prelude::*;
use vstd::string::*;
use vstd::utf8::*;

use crate::text::{decimal, push_decimal};

verus! {

/// The character for six bits.
pub open spec fn b64_char(v: int) -> char {
    if v < 26 {
        ('A' as int + v) as char
    } else if v < 52 {
        ('a' as int + v - 26) as char
    } else if v < 62 {
        ('0' as int + v - 52) as char
    } else if v == 62 {
        '-'
    } else {
        '_'
    }
}

/// The six bits for a byte of the alphabet.
pub open spec fn b64_value(b: u8) -> Option<int> {
    if 65 <= b <= 90 {
        Some(b - 65)
    } else if 97 <= b <= 122 {
        Some(b - 97 + 26)
    } else if 48 <= b <= 57 {
        Some(b - 48 + 52)
    } else if b == 45 {
        Some(62)
    } else if b == 95 {
        Some(63)
    } else {
        None
    }
}

/// Bytes in base64: four characters for three bytes, and two or three
/// characters for the one or two bytes left over.
pub open spec fn b64_text(data: Seq<u8>) -> Seq<char>
    decreases data.len(),
{
    if data.len() == 0 {
        Seq::empty()
    } else if data.len() == 1 {
        seq![b64_char(data[0] as int / 4), b64_char(data[0] as int % 4 * 16)]
    } else if data.len() == 2 {
        seq![
            b64_char(data[0] as int / 4),
            b64_char(data[0] as int % 4 * 16 + data[1] as int / 16),
            b64_char(data[1] as int % 16 * 4),
        ]
    } else {
        seq![
            b64_char(data[0] as int / 4),
            b64_char(data[0] as int % 4 * 16 + data[1] as int / 16),
            b64_char(data[1] as int % 16 * 4 + data[2] as int / 64),
            b64_char(data[2] as int % 64),
        ] + b64_text(data.skip(3))
    }
}

/// The six bits at `i`.
pub open spec fn sextet(s: Seq<u8>, i: int) -> int {
    b64_value(s[i]).unwrap_or(0)
}

/// The bytes that base64 digits stand for. Bits that fill no byte are
/// dropped, and so is a lone digit at the end.
pub open spec fn b64_bytes(s: Seq<u8>) -> Seq<u8>
    decreases s.len(),
{
    if s.len() < 2 {
        Seq::empty()
    } else if s.len() == 2 {
        seq![(sextet(s, 0) * 4 + sextet(s, 1) / 16) as u8]
    } else if s.len() == 3 {
        seq![
            (sextet(s, 0) * 4 + sextet(s, 1) / 16) as u8,
            (sextet(s, 1) % 16 * 16 + sextet(s, 2) / 4) as u8,
        ]
    } else {
        seq![
            (sextet(s, 0) * 4 + sextet(s, 1) / 16) as u8,
            (sextet(s, 1) % 16 * 16 + sextet(s, 2) / 4) as u8,
            (sextet(s, 2) % 4 * 64 + sextet(s, 3)) as u8,
        ] + b64_bytes(s.skip(4))
    }
}

/// The first byte outside the alphabet, if there is one.
pub open spec fn bad_byte(s: Seq<u8>) -> Option<u8>
    decreases s.len(),
{
    if s.len() == 0 {
        None
    } else if b64_value(s[0]) is None {
        Some(s[0])
    } else {
        bad_byte(s.skip(1))
    }
}

/// `s` without the `=` signs at its end.
pub open spec fn strip_pad(s: Seq<u8>) -> Seq<u8>
    decreases s.len(),
{
    if s.len() > 0 && s.last() == 61 {
        strip_pad(s.drop_last())
    } else {
        s
    }
}

/// What decoding a text gives: its bytes, or the message that names the
/// first byte outside the alphabet.
pub open spec fn b64_decoded(s: Seq<char>) -> Result<Seq<u8>, Seq<char>> {
    let t = strip_pad(encode_utf8(s));
    match bad_byte(t) {
        Some(b) => Err("invalid base64 byte "@ + decimal(b as nat)),
        None => Ok(b64_bytes(t)),
    }
}

fn char_for(v: u32) -> (c: char)
    requires
        v < 64,
    ensures
        c == b64_char(v as int),
{
    if v < 26 {
        (65u8 + v as u8) as char
    } else if v < 52 {
        (97u8 + (v - 26) as u8) as char
    } else if v < 62 {
        (48u8 + (v - 52) as u8) as char
    } else if v == 62 {
        '-'
    } else {
        '_'
    }
}

fn value_of(b: u8) -> (v: Option<u32>)
    ensures
        match v {
            Some(n) => b64_value(b) == Some(n as int) && n < 64,
            None => b64_value(b) is None,
        },
{
    if 65 <= b && b <= 90 {
        Some((b - 65) as u32)
    } else if 97 <= b && b <= 122 {
        Some((b - 97 + 26) as u32)
    } else if 48 <= b && b <= 57 {
        Some((b - 48 + 52) as u32)
    } else if b == 45 {
        Some(62)
    } else if b == 95 {
        Some(63)
    } else {
        None
    }
}

/// Encodes bytes as url-safe base64, without padding.
pub fn b64encode(data: &[u8]) -> (out: String)
    ensures
        out@ == b64_text(data@),
{
    let mut out = String::new();
    let len: usize = data.len();
    let mut i: usize = 0;
    assert(data@.skip(0) =~= data@);
    while len - i >= 3
        invariant
            i <= len == data@.len(),
            b64_text(data@) == out@ + b64_text(data@.skip(i as int)),
        decreases len - i,
    {
        let ghost done = out@;
        let ghost rest = data@.skip(i as int);
        let b0 = data[i] as u32;
        let b1 = data[i + 1] as u32;
        let b2 = data[i + 2] as u32;
        out.push(char_for(b0 / 4));
        out.push(char_for(b0 % 4 * 16 + b1 / 16));
        out.push(char_for(b1 % 16 * 4 + b2 / 64));
        out.push(char_for(b2 % 64));
        assert(rest.skip(3) =~= data@.skip(i + 3));
        i += 3;
        assert(done + b64_text(rest) =~= out@ + b64_text(data@.skip(i as int)));
    }
    let ghost done = out@;
    let ghost rest = data@.skip(i as int);
    if len - i == 2 {
        let b0 = data[i] as u32;
        let b1 = data[i + 1] as u32;
        out.push(char_for(b0 / 4));
        out.push(char_for(b0 % 4 * 16 + b1 / 16));
        out.push(char_for(b1 % 16 * 4));
    } else if len - i == 1 {
        let b0 = data[i] as u32;
        out.push(char_for(b0 / 4));
        out.push(char_for(b0 % 4 * 16));
    }
    assert(out@ =~= done + b64_text(rest));
    out
}

/// Decodes url-safe base64. `=` signs at the end are tolerated.
pub fn b64decode(s: &str) -> (r: Result<Vec<u8>, String>)
    ensures
        match r {
            Ok(v) => b64_decoded(s@) == Ok::<Seq<u8>, Seq<char>>(v@),
            Err(e) => b64_decoded(s@) == Err::<Seq<u8>, Seq<char>>(e@),
        },
{
    let bytes = s.as_bytes();
    let mut end: usize = bytes.len();
    assert(bytes@.take(end as int) =~= bytes@);
    while end > 0 && bytes[end - 1] == 61
        invariant
            end <= bytes@.len(),
            strip_pad(bytes@) == strip_pad(bytes@.take(end as int)),
        decreases end,
    {
        assert(bytes@.take(end as int).drop_last() =~= bytes@.take(end - 1));
        end -= 1;
    }
    let ghost t = bytes@.take(end as int);
    assert(strip_pad(bytes@) == t);

    let mut i: usize = 0;
    assert(t.skip(0) =~= t);
    while i < end
        invariant
            i <= end <= bytes@.len(),
            t == bytes@.take(end as int),
            bad_byte(t) == bad_byte(t.skip(i as int)),
            bytes@ == encode_utf8(s@),
            strip_pad(bytes@) == t,
            forall|j: int| 0 <= j < i ==> b64_value(#[trigger] t[j]) is Some,
        decreases end - i,
    {
        assert(t.skip(i as int)[0] == bytes@[i as int]);
        if value_of(bytes[i]).is_none() {
            let mut message = String::new();
            message.append("invalid base64 byte ");
            push_decimal(&mut message, bytes[i] as u64);
            assert(message@ =~= "invalid base64 byte "@ + decimal(bytes@[i as int] as nat));
            return Err(message);
        }
        assert(t.skip(i as int).skip(1) =~= t.skip(i + 1));
        i += 1;
    }
    assert(bad_byte(t) is None);
    let out = decode_digits(bytes, end);
    Ok(out)
}

/// The six bits of a byte known to be in the alphabet.
fn known_value(b: u8) -> (v: u32)
    requires
        b64_value(b) is Some,
    ensures
        v == b64_value(b).unwrap_or(0),
        v < 64,
{
    match value_of(b) {
        Some(v) => v,
        None => 0,
    }
}

fn decode_digits(bytes: &[u8], end: usize) -> (out: Vec<u8>)
    requires
        end <= bytes@.len(),
        forall|j: int| 0 <= j < end ==> b64_value(#[trigger] bytes@[j]) is Some,
    ensures
        out@ == b64_bytes(bytes@.take(end as int)),
{
    let ghost t = bytes@.take(end as int);
    let mut out: Vec<u8> = Vec::new();
    let mut i: usize = 0;
    assert(t.skip(0) =~= t);
    while end - i >= 4
        invariant
            i <= end <= bytes@.len(),
            t == bytes@.take(end as int),
            forall|j: int| 0 <= j < end ==> b64_value(#[trigger] bytes@[j]) is Some,
            b64_bytes(t) == out@ + b64_bytes(t.skip(i as int)),
        decreases end - i,
    {
        let ghost done = out@;
        let ghost rest = t.skip(i as int);
        let v0 = known_value(bytes[i]);
        let v1 = known_value(bytes[i + 1]);
        let v2 = known_value(bytes[i + 2]);
        let v3 = known_value(bytes[i + 3]);
        out.push((v0 * 4 + v1 / 16) as u8);
        out.push((v1 % 16 * 16 + v2 / 4) as u8);
        out.push((v2 % 4 * 64 + v3) as u8);
        assert(rest.skip(4) =~= t.skip(i + 4));
        i += 4;
        assert(done + b64_bytes(rest) =~= out@ + b64_bytes(t.skip(i as int)));
    }
    let ghost done = out@;
    let ghost rest = t.skip(i as int);
    if end - i >= 2 {
        let v0 = known_value(bytes[i]);
        let v1 = known_value(bytes[i + 1]);
        out.push((v0 * 4 + v1 / 16) as u8);
        if end - i == 3 {
            let v2 = known_value(bytes[i + 2]);
            out.push((v1 % 16 * 16 + v2 / 4) as u8);
        }
    }
    assert(out@ =~= done + b64_bytes(rest));
    out
}

// ---------------------------------------------------------------------------
// Laws
// ---------------------------------------------------------------------------

/// Every character of an encoding is one byte, of the alphabet.
proof fn lemma_text_in_alphabet(data: Seq<u8>)
    ensures
        forall|i: int| 0 <= i < b64_text(data).len() ==> '\0' <= #[trigger] b64_text(data)[i] <= '\u{7f}'
            && b64_value(b64_text(data)[i] as u8) is Some,
    decreases data.len(),
{
    if data.len() >= 3 {
        lemma_text_in_alphabet(data.skip(3));
        let t = b64_text(data);
        let rest = b64_text(data.skip(3));
        assert forall|i: int| 0 <= i < t.len() implies '\0' <= #[trigger] t[i] <= '\u{7f}' && b64_value(
            t[i] as u8,
        ) is Some by {
            if i >= 4 {
                assert(t[i] == rest[i - 4]);
            }
        }
    }
}

/// The ASCII bytes of a text.
spec fn ascii_bytes(s: Seq<char>) -> Seq<u8> {
    Seq::new(s.len(), |i: int| s[i] as u8)
}

proof fn lemma_char_value(v: int)
    requires
        0 <= v < 64,
    ensures
        b64_value(b64_char(v) as u8) == Some(v),
{
}

/// Three bytes cut into sextets come back together.
proof fn lemma_sextets(a: u8, b: u8, c: u8)
    ensures
        (a as int / 4 * 4 + (a as int % 4 * 16 + b as int / 16) / 16) as u8 == a,
        ((a as int % 4 * 16 + b as int / 16) % 16 * 16 + (b as int % 16 * 4 + c as int / 64) / 4) as u8
            == b,
        ((b as int % 16 * 4 + c as int / 64) % 4 * 64 + c as int % 64) as u8 == c,
        (a as int / 4 * 4 + (a as int % 4 * 16) / 16) as u8 == a,
        ((a as int % 4 * 16 + b as int / 16) % 16 * 16 + (b as int % 16 * 4) / 4) as u8 == b,
        0 <= a as int / 4 < 64,
        0 <= a as int % 4 * 16 + b as int / 16 < 64,
        0 <= a as int % 4 * 16 < 64,
        0 <= b as int % 16 * 4 + c as int / 64 < 64,
        0 <= b as int % 16 * 4 < 64,
        0 <= c as int % 64 < 64,
{
}

#[verifier::spinoff_prover]
#[verifier::rlimit(60)]
proof fn lemma_text_decodes(data: Seq<u8>)
    ensures
        b64_bytes(ascii_bytes(b64_text(data))) == data,
    decreases data.len(),
{
    let text = b64_text(data);
    let t = ascii_bytes(text);
    if data.len() == 0 {
        assert(b64_bytes(t) =~= data);
    } else if data.len() == 1 {
        let a = data[0];
        lemma_sextets(a, 0, 0);
        lemma_char_value(a as int / 4);
        lemma_char_value(a as int % 4 * 16);
        assert(sextet(t, 0) == a as int / 4);
        assert(sextet(t, 1) == a as int % 4 * 16);
        assert(b64_bytes(t) =~= data);
    } else if data.len() == 2 {
        let a = data[0];
        let b = data[1];
        lemma_sextets(a, b, 0);
        lemma_char_value(a as int / 4);
        lemma_char_value(a as int % 4 * 16 + b as int / 16);
        lemma_char_value(b as int % 16 * 4);
        assert(sextet(t, 0) == a as int / 4);
        assert(sextet(t, 1) == a as int % 4 * 16 + b as int / 16);
        assert(sextet(t, 2) == b as int % 16 * 4);
        assert(b64_bytes(t) =~= data);
    } else {
        let a = data[0];
        let b = data[1];
        let c = data[2];
        let rest = data.skip(3);
        lemma_text_decodes(rest);
        lemma_sextets(a, b, c);
        lemma_char_value(a as int / 4);
        lemma_char_value(a as int % 4 * 16 + b as int / 16);
        lemma_char_value(b as int % 16 * 4 + c as int / 64);
        lemma_char_value(c as int % 64);
        assert(t.skip(4) =~= ascii_bytes(b64_text(rest)));
        assert(sextet(t, 0) == a as int / 4);
        assert(sextet(t, 1) == a as int % 4 * 16 + b as int / 16);
        assert(sextet(t, 2) == b as int % 16 * 4 + c as int / 64);
        assert(sextet(t, 3) == c as int % 64);
        assert(b64_bytes(t) =~= seq![a, b, c] + rest);
        assert(data =~= seq![a, b, c] + rest);
    }
}

proof fn lemma_no_bad_byte(s: Seq<u8>)
    requires
        forall|i: int| 0 <= i < s.len() ==> b64_value(#[trigger] s[i]) is Some,
    ensures
        bad_byte(s) is None,
    decreases s.len(),
{
    if s.len() > 0 {
        assert forall|i: int| 0 <= i < s.skip(1).len() implies b64_value(#[trigger] s.skip(1)[i]) is Some by {
            assert(s.skip(1)[i] == s[i + 1]);
        }
        lemma_no_bad_byte(s.skip(1));
    }
}

proof fn lemma_strip_pads(s: Seq<u8>, k: nat)
    requires
        s.len() > 0 ==> s.last() != 61,
    ensures
        strip_pad(s + Seq::new(k, |i: int| 61u8)) == s,
    decreases k,
{
    let padded = s + Seq::new(k, |i: int| 61u8);
    if k == 0 {
        assert(padded =~= s);
    } else {
        assert(padded.drop_last() =~= s + Seq::new((k - 1) as nat, |i: int| 61u8));
        lemma_strip_pads(s, (k - 1) as nat);
    }
}

/// Decoding an encoding gives the bytes back, whatever number of `=` signs
/// stands behind it.
pub proof fn law_decode_undoes_encode(data: Seq<u8>, pads: nat)
    ensures
        b64_decoded(b64_text(data) + Seq::new(pads, |i: int| '=')) == Ok::<Seq<u8>, Seq<char>>(data),
{
    let text = b64_text(data);
    let padded = text + Seq::new(pads, |i: int| '=');
    lemma_text_in_alphabet(data);
    assert forall|i: int| 0 <= i < padded.len() implies '\0' <= #[trigger] padded[i] <= '\u{7f}' by {
        if i < text.len() {
            assert(padded[i] == text[i]);
        }
    }
    assert(is_ascii_chars(padded));
    is_ascii_chars_encode_utf8(padded);
    let t = ascii_bytes(text);
    assert(encode_utf8(padded) =~= t + Seq::new(pads, |i: int| 61u8));
    assert forall|i: int| 0 <= i < t.len() implies b64_value(#[trigger] t[i]) is Some by {
        assert(t[i] == text[i] as u8);
    }
    lemma_strip_pads(t, pads);
    lemma_no_bad_byte(t);
    lemma_text_decodes(data);
}

/// The 64 characters, in the order of what they stand for. Nothing else is
/// one of them.
pub proof fn law_alphabet(v: int, b: u8)
    ensures
        ({
            let all = "ABCDEFGHIJKLMNOPQRSTUVWXYZabcdefghijklmnopqrstuvwxyz0123456789-_"@;
            &&& all.len() == 64
            &&& 0 <= v < 64 ==> b64_char(v) == all[v] && b64_value(all[v] as u8) == Some(v)
            &&& b64_value(b) matches Some(x) ==> 0 <= x < 64 && all[x] as u8 == b
        }),
{
    reveal_strlit("ABCDEFGHIJKLMNOPQRSTUVWXYZabcdefghijklmnopqrstuvwxyz0123456789-_");
}

/// Three bytes are four digits: read as one number each, highest first, they
/// are the same number. What is left over at the end is filled up with zero
/// bits to whole digits.
pub proof fn law_groups_of_three(data: Seq<u8>, v: Seq<int>)
    requires
        forall|i: int| 0 <= i < v.len() ==> 0 <= #[trigger] v[i] < 64,
        v.len() == 4,
    ensures
        data.len() >= 3 && v[0] * 262144 + v[1] * 4096 + v[2] * 64 + v[3] == data[0] * 65536 + data[1] * 256 + data[2]
            ==> b64_text(data) == seq![b64_char(v[0]), b64_char(v[1]), b64_char(v[2]), b64_char(v[3])] + b64_text(
            data.skip(3),
        ),
        data.len() == 2 && v[0] * 4096 + v[1] * 64 + v[2] == (data[0] * 256 + data[1]) * 4 ==> b64_text(data) == seq![
            b64_char(v[0]),
            b64_char(v[1]),
            b64_char(v[2]),
        ],
        data.len() == 1 && v[0] * 64 + v[1] == data[0] * 16 ==> b64_text(data) == seq![b64_char(v[0]), b64_char(v[1])],
        data.len() == 0 ==> b64_text(data).len() == 0,
{
    let v0 = v[0];
    let v1 = v[1];
    let v2 = v[2];
    let v3 = v[3];
    if data.len() >= 3 {
        lemma_sextets(data[0], data[1], data[2]);
    } else if data.len() == 2 {
        lemma_sextets(data[0], data[1], 0);
    } else if data.len() == 1 {
        lemma_sextets(data[0], 0, 0);
    }
}

/// `n` bytes make four digits for every three of them, and one more than the
/// bytes that are left over.
pub proof fn law_length_of_text(data: Seq<u8>)
    ensures
        b64_text(data).len() == data.len() / 3 * 4 + if data.len() % 3 == 0 {
            0
        } else {
            data.len() % 3 + 1
        },
    decreases data.len(),
{
    if data.len() >= 3 {
        law_length_of_text(data.skip(3));
    }
}

proof fn lemma_joined_sextets(v0: int, v1: int, v2: int, v3: int)
    requires
        0 <= v0 < 64,
        0 <= v1 < 64,
        0 <= v2 < 64,
        0 <= v3 < 64,
    ensures
        v0 * 4 + v1 / 16 == (v0 * 64 + v1) / 16,
        0 <= v0 * 4 + v1 / 16 < 256,
        v1 % 16 * 16 + v2 / 4 == (v0 * 4096 + v1 * 64 + v2) / 4 % 256,
        0 <= v1 % 16 * 16 + v2 / 4 < 256,
        0 <= v2 % 4 * 64 + v3 < 256,
        (v0 * 4 + v1 / 16) * 65536 + (v1 % 16 * 16 + v2 / 4) * 256 + (v2 % 4 * 64 + v3) == v0 * 262144 + v1 * 4096 + v2
            * 64 + v3,
{
    let q = v1 / 16;
    let r = v1 % 16;
    let u = v2 / 4;
    let w = v2 % 4;
    assert(v1 == 16 * q + r && 0 <= q < 4 && 0 <= r < 16);
    assert(v2 == 4 * u + w && 0 <= u < 16 && 0 <= w < 4);
    lemma_quotient(v0 * 4 + q, r, 16);
    lemma_quotient(v0 * 1024 + q * 256 + r * 16 + u, w, 4);
    lemma_quotient(v0 * 4 + q, r * 16 + u, 256);
}

#[verifier::rlimit(60)]
proof fn lemma_quotient(a: int, b: int, n: int)
    requires
        0 <= b < n,
        0 <= a,
        n == 16 || n == 4 || n == 256,
    ensures
        (n * a + b) / n == a,
        (n * a + b) % n == b,
{
    lemma_fundamental_div_mod_converse(n * a + b, n, a, b);
}

/// Digits decode to a byte for every eight bits that they hold. Bits that
/// are left over are dropped, whatever they are, and so is a lone digit.
pub proof fn law_digits_decode(s: Seq<u8>)
    requires
        forall|i: int| 0 <= i < s.len() ==> b64_value(#[trigger] s[i]) is Some,
    ensures
        s.len() < 2 ==> b64_bytes(s).len() == 0,
        s.len() == 2 ==> b64_bytes(s).len() == 1,
        s.len() == 3 ==> b64_bytes(s).len() == 2,
        s.len() >= 4 ==> b64_bytes(s).len() == 3 + b64_bytes(s.skip(4)).len(),
        s.len() == 2 || s.len() == 3 ==> b64_bytes(s)[0] as int == (sextet(s, 0) * 64 + sextet(s, 1)) / 16,
        s.len() == 3 ==> b64_bytes(s)[1] as int == (sextet(s, 0) * 4096 + sextet(s, 1) * 64 + sextet(s, 2)) / 4 % 256,
        s.len() >= 4 ==> b64_bytes(s)[0] * 65536 + b64_bytes(s)[1] * 256 + b64_bytes(s)[2] == sextet(s, 0) * 262144
            + sextet(s, 1) * 4096 + sextet(s, 2) * 64 + sextet(s, 3),
        s.len() >= 4 ==> b64_bytes(s).skip(3) == b64_bytes(s.skip(4)),
{
    if s.len() >= 2 {
        assert(b64_value(s[0]) is Some && b64_value(s[1]) is Some);
        let v2 = if s.len() > 2 {
            assert(b64_value(s[2]) is Some);
            sextet(s, 2)
        } else {
            0
        };
        let v3 = if s.len() > 3 {
            assert(b64_value(s[3]) is Some);
            sextet(s, 3)
        } else {
            0
        };
        lemma_joined_sextets(sextet(s, 0), sextet(s, 1), v2, v3);
        if s.len() >= 4 {
            assert(b64_bytes(s).skip(3) =~= b64_bytes(s.skip(4)));
        }
    }
}

proof fn lemma_bad_byte_found(good: Seq<u8>, b: u8, rest: Seq<u8>)
    requires
        forall|i: int| 0 <= i < good.len() ==> b64_value(#[trigger] good[i]) is Some,
        b64_value(b) is None,
    ensures
        bad_byte(good.push(b) + rest) == Some(b),
    decreases good.len(),
{
    let s = good.push(b) + rest;
    if good.len() == 0 {
        assert(s[0] == b);
    } else {
        let tail = good.skip(1);
        assert(b64_value(good[0]) is Some);
        assert(s[0] == good[0]);
        assert(s.skip(1) =~= tail.push(b) + rest);
        assert forall|i: int| 0 <= i < tail.len() implies b64_value(#[trigger] tail[i]) is Some by {
            assert(tail[i] == good[i + 1]);
        }
        lemma_bad_byte_found(tail, b, rest);
    }
}

proof fn lemma_strip_keeps(s: Seq<u8>, rest: Seq<u8>)
    requires
        s.len() > 0,
        s.last() != 61,
    ensures
        strip_pad(s + rest) == s + strip_pad(rest),
    decreases rest.len(),
{
    if rest.len() == 0 {
        assert(s + rest =~= s);
        assert(s + strip_pad(rest) =~= s);
    } else {
        assert((s + rest).last() == rest.last());
        assert((s + rest).drop_last() =~= s + rest.drop_last());
        lemma_strip_keeps(s, rest.drop_last());
    }
}

/// A text is refused for the first of its bytes that is no digit, wherever
/// that stands; an equals sign is one too, unless nothing but such signs
/// follows.
pub proof fn law_foreign_bytes_are_refused(s: Seq<char>, good: Seq<u8>, b: u8, rest: Seq<u8>)
    requires
        encode_utf8(s) == good.push(b) + rest,
        forall|i: int| 0 <= i < good.len() ==> b64_value(#[trigger] good[i]) is Some,
        b64_value(b) is None,
        b != 61 || (rest.len() > 0 && rest.last() != 61),
    ensures
        b64_decoded(s) == Err::<Seq<u8>, Seq<char>>("invalid base64 byte "@ + decimal(b as nat)),
{
    let all = good.push(b) + rest;
    if b != 61 {
        lemma_strip_keeps(good.push(b), rest);
        lemma_bad_byte_found(good, b, strip_pad(rest));
    } else {
        assert(all.last() == rest.last());
        lemma_bad_byte_found(good, b, rest);
    }
}

} // verus!
