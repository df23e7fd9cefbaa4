//! The request-envelope codec.
//!
//! A payload string is UTF-8 encoded, reversed byte-wise, each byte
//! bitwise complemented, and each resulting byte spelled as two lowercase
//! hex digits; decoding inverts the transform. This is obfuscation, not
//! encryption, and both sides must agree on it bit-exactly.

use vstd::arithmetic::div_mod::lemma_fundamental_div_mod;
use vstd::prelude::*;
use vstd::slice::slice_to_vec;
use vstd::utf8::{
    decode_utf8, encode_utf8, encode_utf8_decode_utf8, encode_utf8_valid_utf8, valid_utf8,
};

use crate::errors::FilerError;
use crate::text::{all_ascii, ascii_seq, bytes_to_string, lemma_ascii_utf8};

verus! {

/// The lowercase hex digit for a value below 16.
pub open spec fn spec_hex_lower(n: u8) -> u8
    recommends
        n < 16,
{
    if n < 10 {
        (48 + n) as u8
    } else {
        (87 + n) as u8
    }
}

/// True for the bytes `0-9`, `a-f` and `A-F`.
pub open spec fn spec_is_hex_digit(c: u8) -> bool {
    (48 <= c <= 57) || (97 <= c <= 102) || (65 <= c <= 70)
}

/// The value of a hex digit byte.
pub open spec fn spec_hex_value(c: u8) -> u8
    recommends
        spec_is_hex_digit(c),
{
    if 48 <= c <= 57 {
        (c - 48) as u8
    } else if 97 <= c <= 102 {
        (c - 87) as u8
    } else if 65 <= c <= 70 {
        (c - 55) as u8
    } else {
        0
    }
}

/// True when every byte of `s` is a hex digit.
pub open spec fn all_hex(s: Seq<u8>) -> bool {
    forall|i: int| 0 <= i < s.len() ==> spec_is_hex_digit(s[i])
}

/// The obfuscation step: the bytes reversed, each complemented. It is
/// its own inverse.
pub open spec fn obfuscate(bytes: Seq<u8>) -> Seq<u8> {
    Seq::new(bytes.len(), |i: int| !bytes[bytes.len() - 1 - i])
}

/// Each byte spelled as two lowercase hex digits, in order.
pub open spec fn hex_of_bytes(bytes: Seq<u8>) -> Seq<u8> {
    Seq::new(
        2 * bytes.len(),
        |i: int|
            if i % 2 == 0 {
                spec_hex_lower((bytes[i / 2] / 16) as u8)
            } else {
                spec_hex_lower((bytes[i / 2] % 16) as u8)
            },
    )
}

/// The bytes spelled by an even-length run of hex digits.
pub open spec fn parse_hex_pairs(s: Seq<u8>) -> Seq<u8>
    recommends
        s.len() % 2 == 0,
        all_hex(s),
{
    Seq::new(
        (s.len() / 2) as nat,
        |i: int| ((spec_hex_value(s[2 * i]) * 16 + spec_hex_value(s[2 * i + 1])) as u8),
    )
}

/// The wire form of a payload: obfuscate, then spell as hex.
pub open spec fn spec_base16_encode_bytes(payload: Seq<u8>) -> Seq<u8> {
    hex_of_bytes(obfuscate(payload))
}

/// The payload carried by a wire string, if it is well-formed hex.
pub open spec fn spec_base16_decode_bytes(s: Seq<u8>) -> Option<Seq<u8>> {
    if s.len() % 2 == 0 && all_hex(s) {
        Some(obfuscate(parse_hex_pairs(s)))
    } else {
        None
    }
}

/// [`spec_base16_encode_bytes`] lifted to strings: the payload's UTF-8
/// bytes, obfuscated and spelled as hex characters.
pub open spec fn spec_base16_encode(s: Seq<char>) -> Seq<char> {
    ascii_seq(spec_base16_encode_bytes(encode_utf8(s)))
}

/// [`spec_base16_decode_bytes`] lifted to strings: decoding fails on an
/// odd length, a non-hex digit, or a payload that is not UTF-8.
pub open spec fn spec_base16_decode(s: Seq<char>) -> Option<Seq<char>> {
    match spec_base16_decode_bytes(encode_utf8(s)) {
        Some(p) => if valid_utf8(p) {
            Some(decode_utf8(p))
        } else {
            None
        },
        None => None,
    }
}

pub(crate) fn hex_digit_lower(n: u8) -> (r: u8)
    requires
        n < 16,
    ensures
        r == spec_hex_lower(n),
{
    if n < 10 {
        48 + n
    } else {
        87 + n
    }
}

pub(crate) fn is_hex_digit(c: u8) -> (r: bool)
    ensures
        r == spec_is_hex_digit(c),
{
    (48 <= c && c <= 57) || (97 <= c && c <= 102) || (65 <= c && c <= 70)
}

pub(crate) fn hex_digit_value(c: u8) -> (r: u8)
    requires
        spec_is_hex_digit(c),
    ensures
        r == spec_hex_value(c),
{
    if 48 <= c && c <= 57 {
        c - 48
    } else if 97 <= c && c <= 102 {
        c - 87
    } else {
        c - 55
    }
}

pub(crate) fn obfuscate_bytes(bytes: &Vec<u8>) -> (r: Vec<u8>)
    ensures
        r@ == obfuscate(bytes@),
{
    let n = bytes.len();
    let mut out: Vec<u8> = Vec::new();
    let mut i: usize = 0;
    while i < n
        invariant
            n == bytes@.len(),
            i <= n,
            out@.len() == i,
            forall|j: int| 0 <= j < i ==> out@[j] == !bytes@[n - 1 - j],
        decreases n - i,
    {
        out.push(!bytes[n - 1 - i]);
        i = i + 1;
    }
    proof {
        assert(out@ =~= obfuscate(bytes@));
    }
    out
}

pub(crate) fn hex_bytes(bytes: &Vec<u8>) -> (r: Vec<u8>)
    ensures
        r@ == hex_of_bytes(bytes@),
{
    let n = bytes.len();
    let mut out: Vec<u8> = Vec::new();
    let mut i: usize = 0;
    while i < n
        invariant
            n == bytes@.len(),
            i <= n,
            out@.len() == 2 * i,
            forall|j: int| 0 <= j < 2 * i ==> out@[j] == hex_of_bytes(bytes@)[j],
        decreases n - i,
    {
        let b = bytes[i];
        out.push(hex_digit_lower(b / 16));
        out.push(hex_digit_lower(b % 16));
        proof {
            assert((2 * i as int) / 2 == i as int);
            assert((2 * i as int + 1) / 2 == i as int);
            assert((2 * i as int) % 2 == 0);
            assert((2 * i as int + 1) % 2 == 1int);
        }
        i = i + 1;
    }
    proof {
        assert(out@ =~= hex_of_bytes(bytes@));
    }
    out
}

fn unhex_bytes(s: &Vec<u8>) -> (r: Option<Vec<u8>>)
    ensures
        r is Some <==> (s@.len() % 2 == 0 && all_hex(s@)),
        r matches Some(v) ==> v@ == parse_hex_pairs(s@),
{
    let n = s.len();
    if n % 2 != 0 {
        return None;
    }
    let half = n / 2;
    let mut out: Vec<u8> = Vec::new();
    let mut i: usize = 0;
    while i < half
        invariant
            n == s@.len(),
            n % 2 == 0,
            half == n as int / 2,
            i <= half,
            out@.len() == i,
            forall|j: int| 0 <= j < 2 * i ==> spec_is_hex_digit(s@[j]),
            forall|j: int| 0 <= j < i ==> out@[j] == parse_hex_pairs(s@)[j],
        decreases half - i,
    {
        proof {
            assert(2 * (i as int) + 1 < n);
        }
        let c1 = s[2 * i];
        let c2 = s[2 * i + 1];
        if !is_hex_digit(c1) || !is_hex_digit(c2) {
            return None;
        }
        out.push(hex_digit_value(c1) * 16 + hex_digit_value(c2));
        i = i + 1;
    }
    proof {
        assert(all_hex(s@));
        assert(out@ =~= parse_hex_pairs(s@));
    }
    Some(out)
}

/// Encodes `info` as a request envelope: its UTF-8 bytes reversed,
/// complemented, and spelled as lowercase hex.
pub fn base16_encode(info: &str) -> (r: Result<String, FilerError>)
    ensures
        r is Ok,
        r matches Ok(s) ==> s@ == spec_base16_encode(info@),
{
    let data = slice_to_vec(info.as_bytes());
    let obf = obfuscate_bytes(&data);
    let hexb = hex_bytes(&obf);
    proof {
        assert(all_ascii(hexb@));
        lemma_ascii_utf8(hexb@);
    }
    match bytes_to_string(hexb) {
        Some(s) => {
            proof {
                encode_utf8_decode_utf8(s@);
            }
            Ok(s)
        },
        None => {
            proof {
                assert(false);
            }
            Err(FilerError::MalformedEnvelope)
        },
    }
}

/// Decodes a request envelope back to its payload string.
///
/// Fails, with a malformed-envelope error, exactly when the input has
/// odd length, holds a byte that is not a hex digit, or spells a payload
/// that is not valid UTF-8.
pub fn base16_decode(base16: &str) -> (r: Result<String, FilerError>)
    ensures
        r is Ok <==> spec_base16_decode(base16@) is Some,
        r matches Ok(s) ==> Some(s@) == spec_base16_decode(base16@),
        r is Err ==> r == Err::<String, FilerError>(FilerError::MalformedEnvelope),
{
    let data = slice_to_vec(base16.as_bytes());
    match unhex_bytes(&data) {
        None => Err(FilerError::MalformedEnvelope),
        Some(pairs) => {
            let payload = obfuscate_bytes(&pairs);
            match bytes_to_string(payload) {
                Some(s) => {
                    proof {
                        encode_utf8_decode_utf8(s@);
                    }
                    Ok(s)
                },
                None => Err(FilerError::MalformedEnvelope),
            }
        },
    }
}

/// A hex pair spells back the byte it was made from.
pub proof fn lemma_hex_pair_roundtrip(b: u8)
    ensures
        spec_is_hex_digit(spec_hex_lower((b / 16) as u8)),
        spec_is_hex_digit(spec_hex_lower((b % 16) as u8)),
        spec_hex_value(spec_hex_lower((b / 16) as u8)) * 16 + spec_hex_value(
            spec_hex_lower((b % 16) as u8),
        ) == b,
{
    lemma_fundamental_div_mod(b as int, 16);
}

/// Hex spelling loses nothing: parsing the pairs gives the bytes back.
proof fn lemma_unhex_hex(bytes: Seq<u8>)
    ensures
        hex_of_bytes(bytes).len() % 2 == 0,
        all_hex(hex_of_bytes(bytes)),
        parse_hex_pairs(hex_of_bytes(bytes)) == bytes,
{
    let h = hex_of_bytes(bytes);
    assert forall|i: int| 0 <= i < h.len() implies spec_is_hex_digit(h[i]) by {
        lemma_hex_pair_roundtrip(bytes[i / 2]);
    }
    assert forall|i: int| 0 <= i < bytes.len() implies parse_hex_pairs(h)[i] == bytes[i] by {
        assert((2 * i) / 2 == i);
        assert((2 * i + 1) / 2 == i);
        assert((2 * i) % 2 == 0);
        assert((2 * i + 1) % 2 == 1int);
        lemma_hex_pair_roundtrip(bytes[i]);
    }
    assert(parse_hex_pairs(h) =~= bytes);
}

/// Obfuscation is an involution: reversing and complementing twice gives
/// the bytes back.
proof fn lemma_obfuscate_involution(bytes: Seq<u8>)
    ensures
        obfuscate(obfuscate(bytes)) == bytes,
{
    assert(forall|b: u8| !(!b) == b) by (bit_vector);
    assert(obfuscate(obfuscate(bytes)) =~= bytes);
}

/// Envelope round trip: decoding an encoded payload gives the payload
/// back, for every payload string.
pub proof fn lemma_envelope_round_trip(payload: Seq<char>)
    ensures
        spec_base16_decode(spec_base16_encode(payload)) == Some(payload),
{
    let pb = encode_utf8(payload);
    let wire = spec_base16_encode_bytes(pb);
    assert(all_ascii(wire)) by {
        lemma_unhex_hex(obfuscate(pb));
    }
    lemma_ascii_utf8(wire);
    assert(encode_utf8(spec_base16_encode(payload)) == wire);
    lemma_unhex_hex(obfuscate(pb));
    lemma_obfuscate_involution(pb);
    encode_utf8_valid_utf8(payload);
    encode_utf8_decode_utf8(payload);
}

} // verus!
