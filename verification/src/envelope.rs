//! The request payload: a flat JSON object
//! `{"catalog": string, "file": string, "skip"?: u64, "take"?: u64}`.
//!
//! Clients render it compactly with the keys in that (alphabetical)
//! order and wrap it in the hex envelope; the server unwraps the
//! envelope and reads the fields back, ignoring unknown keys and
//! fields of the wrong type. The grammar here is the object form of
//! JSON: strings with the usual escapes, numbers, `true`, `false` and
//! `null`; a value that is itself an object or array is not part of
//! the envelope schema and is rejected.

use vstd::prelude::*;
use vstd::slice::slice_to_vec;
use vstd::utf8::{decode_utf8_encode_utf8, encode_scalar, encode_utf8, valid_utf8};

use crate::base16::{
    spec_base16_decode_bytes, spec_base16_encode_bytes, spec_hex_lower, spec_hex_value,
    spec_is_hex_digit,
};
use crate::errors::FilerError;
use crate::manifest::{dec_value, is_dec_u64, is_digit, spec_dec};
use crate::text::{all_ascii, ascii_seq, bytes_to_string, lemma_ascii_utf8};

verus! {

/// The fields a request envelope carries, each present only when the
/// object holds it with the right type.
#[derive(Debug, PartialEq, Eq)]
pub struct RequestParams {
    pub catalog: Option<Vec<u8>>,
    pub file: Option<Vec<u8>>,
    pub skip: Option<u64>,
    pub take: Option<u64>,
}

/// The mathematical shadow of [`RequestParams`].
pub ghost struct ParamsView {
    pub catalog: Option<Seq<u8>>,
    pub file: Option<Seq<u8>>,
    pub skip: Option<u64>,
    pub take: Option<u64>,
}

impl View for RequestParams {
    type V = ParamsView;

    open spec fn view(&self) -> ParamsView {
        ParamsView {
            catalog: match self.catalog {
                Some(ref c) => Some(c@),
                None => None,
            },
            file: match self.file {
                Some(ref f) => Some(f@),
                None => None,
            },
            skip: self.skip,
            take: self.take,
        }
    }
}

/// A JSON value of the envelope schema.
pub ghost enum JsonVal {
    Str(Seq<u8>),
    Num(Option<u64>),
    Bool(bool),
    Null,
}

/// The bytes `catalog`.
pub open spec fn key_catalog() -> Seq<u8> {
    seq![99u8, 97, 116, 97, 108, 111, 103]
}

/// The bytes `file`.
pub open spec fn key_file() -> Seq<u8> {
    seq![102u8, 105, 108, 101]
}

/// The bytes `skip`.
pub open spec fn key_skip() -> Seq<u8> {
    seq![115u8, 107, 105, 112]
}

/// The bytes `take`.
pub open spec fn key_take() -> Seq<u8> {
    seq![116u8, 97, 107, 101]
}

/// JSON whitespace.
pub open spec fn is_ws(b: u8) -> bool {
    b == 32 || b == 9 || b == 10 || b == 13
}

/// First non-whitespace position at or after `p`.
pub open spec fn skip_ws(s: Seq<u8>, p: int) -> int
    recommends
        0 <= p <= s.len(),
    decreases s.len() - p,
        when 0 <= p <= s.len()
{
    if p >= s.len() || !is_ws(s[p]) {
        p
    } else {
        skip_ws(s, p + 1)
    }
}

/// Where [`skip_ws`] lands.
pub proof fn lemma_skip_ws(s: Seq<u8>, p: int)
    requires
        0 <= p <= s.len(),
    ensures
        p <= skip_ws(s, p) <= s.len(),
        skip_ws(s, p) < s.len() ==> !is_ws(s[skip_ws(s, p)]),
    decreases s.len() - p,
{
    if p >= s.len() || !is_ws(s[p]) {
    } else {
        lemma_skip_ws(s, p + 1);
    }
}

/// The value of the four hex digits at `p`, if they are hex digits.
pub open spec fn hex4(s: Seq<u8>, p: int) -> Option<int>
    recommends
        0 <= p,
        p + 4 <= s.len(),
{
    if spec_is_hex_digit(s[p]) && spec_is_hex_digit(s[p + 1]) && spec_is_hex_digit(s[p + 2])
        && spec_is_hex_digit(s[p + 3]) {
        Some(
            spec_hex_value(s[p]) * 4096 + spec_hex_value(s[p + 1]) * 256 + spec_hex_value(
                s[p + 2],
            ) * 16 + spec_hex_value(s[p + 3]),
        )
    } else {
        None
    }
}

/// The body of a JSON string from `p` (just past the opening quote):
/// the bytes it spells and the position just past the closing quote.
/// Control bytes must be escaped; `\u` escapes cover the basic plane
/// and surrogate pairs, and a lone surrogate is malformed.
pub open spec fn parse_str_body(s: Seq<u8>, p: int) -> Option<(Seq<u8>, int)>
    recommends
        0 <= p <= s.len(),
    decreases s.len() - p,
        when 0 <= p <= s.len()
{
    if p >= s.len() {
        None
    } else if s[p] == 34 {
        Some((Seq::empty(), p + 1))
    } else if s[p] == 92 {
        if p + 1 >= s.len() {
            None
        } else {
            let e = s[p + 1];
            if e == 34 || e == 92 || e == 47 {
                match parse_str_body(s, p + 2) {
                    None => None,
                    Some(rq) => Some((seq![e] + rq.0, rq.1)),
                }
            } else if e == 98 {
                match parse_str_body(s, p + 2) {
                    None => None,
                    Some(rq) => Some((seq![8u8] + rq.0, rq.1)),
                }
            } else if e == 116 {
                match parse_str_body(s, p + 2) {
                    None => None,
                    Some(rq) => Some((seq![9u8] + rq.0, rq.1)),
                }
            } else if e == 110 {
                match parse_str_body(s, p + 2) {
                    None => None,
                    Some(rq) => Some((seq![10u8] + rq.0, rq.1)),
                }
            } else if e == 102 {
                match parse_str_body(s, p + 2) {
                    None => None,
                    Some(rq) => Some((seq![12u8] + rq.0, rq.1)),
                }
            } else if e == 114 {
                match parse_str_body(s, p + 2) {
                    None => None,
                    Some(rq) => Some((seq![13u8] + rq.0, rq.1)),
                }
            } else if e == 117 {
                if p + 6 > s.len() {
                    None
                } else {
                    match hex4(s, p + 2) {
                        None => None,
                        Some(cp) => if 0xD800 <= cp < 0xDC00 {
                            if p + 12 > s.len() || s[p + 6] != 92 || s[p + 7] != 117 {
                                None
                            } else {
                                match hex4(s, p + 8) {
                                    None => None,
                                    Some(lo) => if 0xDC00 <= lo < 0xE000 {
                                        let scalar = 0x10000 + (cp - 0xD800) * 0x400 + (lo
                                            - 0xDC00);
                                        match parse_str_body(s, p + 12) {
                                            None => None,
                                            Some(rq) => Some(
                                                (encode_scalar(scalar as u32) + rq.0, rq.1),
                                            ),
                                        }
                                    } else {
                                        None
                                    },
                                }
                            }
                        } else if 0xDC00 <= cp < 0xE000 {
                            None
                        } else {
                            match parse_str_body(s, p + 6) {
                                None => None,
                                Some(rq) => Some((encode_scalar(cp as u32) + rq.0, rq.1)),
                            }
                        },
                    }
                }
            } else {
                None
            }
        }
    } else if s[p] < 32 {
        None
    } else {
        match parse_str_body(s, p + 1) {
            None => None,
            Some(rq) => Some((seq![s[p]] + rq.0, rq.1)),
        }
    }
}

/// A successful string body ends past where it began, within `s`.
pub proof fn lemma_parse_str_body_bounds(s: Seq<u8>, p: int)
    requires
        0 <= p <= s.len(),
        parse_str_body(s, p) is Some,
    ensures
        p < parse_str_body(s, p).unwrap().1 <= s.len(),
    decreases s.len() - p,
{
    if p >= s.len() {
    } else if s[p] == 34 {
    } else if s[p] == 92 {
        let e = s[p + 1];
        if e == 34 || e == 92 || e == 47 || e == 98 || e == 116 || e == 110 || e == 102 || e
            == 114 {
            lemma_parse_str_body_bounds(s, p + 2);
        } else if e == 117 {
            match hex4(s, p + 2) {
                None => {},
                Some(cp) => {
                    if 0xD800 <= cp < 0xDC00 {
                        lemma_parse_str_body_bounds(s, p + 12);
                    } else if 0xDC00 <= cp < 0xE000 {
                    } else {
                        lemma_parse_str_body_bounds(s, p + 6);
                    }
                },
            }
        }
    } else if s[p] < 32 {
    } else {
        lemma_parse_str_body_bounds(s, p + 1);
    }
}

/// End of the digit run starting at `p`.
pub open spec fn digits_end(s: Seq<u8>, p: int) -> int
    recommends
        0 <= p <= s.len(),
    decreases s.len() - p,
        when 0 <= p <= s.len()
{
    if p >= s.len() || !is_digit(s[p]) {
        p
    } else {
        digits_end(s, p + 1)
    }
}

/// Where [`digits_end`] lands.
pub proof fn lemma_digits_end(s: Seq<u8>, p: int)
    requires
        0 <= p <= s.len(),
    ensures
        p <= digits_end(s, p) <= s.len(),
    decreases s.len() - p,
{
    if p >= s.len() || !is_digit(s[p]) {
    } else {
        lemma_digits_end(s, p + 1);
    }
}

/// A JSON number from `p`: the `u64` it denotes when it is a plain
/// unsigned integer that fits (anything signed, fractional, exponent
/// or oversized is carried as no value), and the position after it.
pub open spec fn parse_number(s: Seq<u8>, p: int) -> Option<(Option<u64>, int)>
    recommends
        0 <= p <= s.len(),
{
    let neg = p < s.len() && s[p] == 45;
    let ip = if neg {
        p + 1
    } else {
        p
    };
    if ip >= s.len() || !is_digit(s[ip]) {
        None
    } else {
        let ie = if s[ip] == 48 {
            ip + 1
        } else {
            digits_end(s, ip)
        };
        if ie < s.len() && s[ip] == 48 && is_digit(s[ie]) {
            None
        } else {
            let fe = if ie < s.len() && s[ie] == 46 {
                if ie + 1 < s.len() && is_digit(s[ie + 1]) {
                    digits_end(s, ie + 1)
                } else {
                    -1
                }
            } else {
                ie
            };
            if fe < 0 {
                None
            } else {
                let ee = if fe < s.len() && (s[fe] == 101 || s[fe] == 69) {
                    let sp = if fe + 1 < s.len() && (s[fe + 1] == 43 || s[fe + 1] == 45) {
                        fe + 2
                    } else {
                        fe + 1
                    };
                    if sp < s.len() && is_digit(s[sp]) {
                        digits_end(s, sp)
                    } else {
                        -1
                    }
                } else {
                    fe
                };
                if ee < 0 {
                    None
                } else {
                    let digits = s.subrange(ip, ie);
                    let val = if !neg && fe == ie && ee == fe && is_dec_u64(digits) {
                        Some(dec_value(digits) as u64)
                    } else {
                        None
                    };
                    Some((val, ee))
                }
            }
        }
    }
}

/// A successful number ends past where it began, within `s`.
pub proof fn lemma_parse_number_bounds(s: Seq<u8>, p: int)
    requires
        0 <= p <= s.len(),
        parse_number(s, p) is Some,
    ensures
        p < parse_number(s, p).unwrap().1 <= s.len(),
{
    let neg = p < s.len() && s[p] == 45;
    let ip = if neg {
        p + 1
    } else {
        p
    };
    lemma_digits_end(s, ip);
    if ip + 1 <= s.len() {
        lemma_digits_end(s, ip + 1);
    }
    let ie = if s[ip] == 48 {
        ip + 1
    } else {
        digits_end(s, ip)
    };
    assert(ip < ie <= s.len());
    let fe = if ie < s.len() && s[ie] == 46 {
        if ie + 1 < s.len() && is_digit(s[ie + 1]) {
            digits_end(s, ie + 1)
        } else {
            -1
        }
    } else {
        ie
    };
    if ie < s.len() && s[ie] == 46 && ie + 1 < s.len() && is_digit(s[ie + 1]) {
        lemma_digits_end(s, ie + 1);
        lemma_digits_end(s, ie + 2);
    }
    assert(ie <= fe <= s.len());
    if fe < s.len() && (s[fe] == 101 || s[fe] == 69) {
        let sp = if fe + 1 < s.len() && (s[fe + 1] == 43 || s[fe + 1] == 45) {
            fe + 2
        } else {
            fe + 1
        };
        if sp < s.len() && is_digit(s[sp]) {
            lemma_digits_end(s, sp);
        }
    }
}

/// A JSON value of the envelope schema from `p`: a string, a number,
/// `true`, `false` or `null`, and the position after it.
pub open spec fn parse_value(s: Seq<u8>, p: int) -> Option<(JsonVal, int)>
    recommends
        0 <= p <= s.len(),
{
    if p >= s.len() {
        None
    } else if s[p] == 34 {
        match parse_str_body(s, p + 1) {
            None => None,
            Some(rq) => Some((JsonVal::Str(rq.0), rq.1)),
        }
    } else if s[p] == 116 {
        if p + 4 <= s.len() && s[p + 1] == 114 && s[p + 2] == 117 && s[p + 3] == 101 {
            Some((JsonVal::Bool(true), p + 4))
        } else {
            None
        }
    } else if s[p] == 102 {
        if p + 5 <= s.len() && s[p + 1] == 97 && s[p + 2] == 108 && s[p + 3] == 115 && s[p + 4]
            == 101 {
            Some((JsonVal::Bool(false), p + 5))
        } else {
            None
        }
    } else if s[p] == 110 {
        if p + 4 <= s.len() && s[p + 1] == 117 && s[p + 2] == 108 && s[p + 3] == 108 {
            Some((JsonVal::Null, p + 4))
        } else {
            None
        }
    } else if s[p] == 45 || is_digit(s[p]) {
        match parse_number(s, p) {
            None => None,
            Some(vq) => Some((JsonVal::Num(vq.0), vq.1)),
        }
    } else {
        None
    }
}

/// A successful value ends past where it began, within `s`.
pub proof fn lemma_parse_value_bounds(s: Seq<u8>, p: int)
    requires
        0 <= p <= s.len(),
        parse_value(s, p) is Some,
    ensures
        p < parse_value(s, p).unwrap().1 <= s.len(),
{
    if p < s.len() && s[p] == 34 {
        lemma_parse_str_body_bounds(s, p + 1);
    } else if p < s.len() && (s[p] == 45 || is_digit(s[p])) {
        lemma_parse_number_bounds(s, p);
    }
}

/// Fields after one key/value pair lands: a string value fills the
/// matching string field, a plain unsigned number fills the matching
/// numeric field, and any other value, or a repeat of the key with
/// another type, clears it; unknown keys change nothing.
pub open spec fn apply_pair(acc: ParamsView, key: Seq<u8>, val: JsonVal) -> ParamsView {
    if key == key_catalog() {
        ParamsView {
            catalog: match val {
                JsonVal::Str(x) => Some(x),
                _ => None,
            },
            file: acc.file,
            skip: acc.skip,
            take: acc.take,
        }
    } else if key == key_file() {
        ParamsView {
            catalog: acc.catalog,
            file: match val {
                JsonVal::Str(x) => Some(x),
                _ => None,
            },
            skip: acc.skip,
            take: acc.take,
        }
    } else if key == key_skip() {
        ParamsView {
            catalog: acc.catalog,
            file: acc.file,
            skip: match val {
                JsonVal::Num(n) => n,
                _ => None,
            },
            take: acc.take,
        }
    } else if key == key_take() {
        ParamsView {
            catalog: acc.catalog,
            file: acc.file,
            skip: acc.skip,
            take: match val {
                JsonVal::Num(n) => n,
                _ => None,
            },
        }
    } else {
        acc
    }
}

/// The members of the object from `p` (at the first key's quote):
/// the fields they leave and the position just past the closing brace.
pub open spec fn parse_members(s: Seq<u8>, p: int, acc: ParamsView) -> Option<(ParamsView, int)>
    recommends
        0 <= p <= s.len(),
    decreases s.len() - p,
        when 0 <= p <= s.len()
        via parse_members_decreases
{
    if p >= s.len() || s[p] != 34 {
        None
    } else {
        match parse_str_body(s, p + 1) {
            None => None,
            Some(kq) => {
                let q1 = skip_ws(s, kq.1);
                if q1 >= s.len() || s[q1] != 58 {
                    None
                } else {
                    let q2 = skip_ws(s, q1 + 1);
                    match parse_value(s, q2) {
                        None => None,
                        Some(vq) => {
                            let acc2 = apply_pair(acc, kq.0, vq.0);
                            let q3 = skip_ws(s, vq.1);
                            if q3 < s.len() && s[q3] == 44 {
                                parse_members(s, skip_ws(s, q3 + 1), acc2)
                            } else if q3 < s.len() && s[q3] == 125 {
                                Some((acc2, q3 + 1))
                            } else {
                                None
                            }
                        },
                    }
                }
            },
        }
    }
}

#[via_fn]
proof fn parse_members_decreases(s: Seq<u8>, p: int, acc: ParamsView) {
    if 0 <= p <= s.len() && p < s.len() && s[p] == 34 {
        match parse_str_body(s, p + 1) {
            None => {},
            Some(kq) => {
                lemma_parse_str_body_bounds(s, p + 1);
                let q1 = skip_ws(s, kq.1);
                lemma_skip_ws(s, kq.1);
                if q1 < s.len() && s[q1] == 58 {
                    let q2 = skip_ws(s, q1 + 1);
                    lemma_skip_ws(s, q1 + 1);
                    match parse_value(s, q2) {
                        None => {},
                        Some(vq) => {
                            lemma_parse_value_bounds(s, q2);
                            let q3 = skip_ws(s, vq.1);
                            lemma_skip_ws(s, vq.1);
                            if q3 < s.len() && s[q3] == 44 {
                                lemma_skip_ws(s, q3 + 1);
                            }
                        },
                    }
                }
            },
        }
    }
}

/// The empty field set.
pub open spec fn empty_params() -> ParamsView {
    ParamsView { catalog: None, file: None, skip: None, take: None }
}

/// The whole envelope payload parsed: one JSON object, nothing but
/// whitespace around it.
pub open spec fn spec_parse_envelope(s: Seq<u8>) -> Option<ParamsView> {
    let p0 = skip_ws(s, 0);
    if p0 >= s.len() || s[p0] != 123 {
        None
    } else {
        let p1 = skip_ws(s, p0 + 1);
        if p1 < s.len() && s[p1] == 125 {
            if skip_ws(s, p1 + 1) == s.len() {
                Some(empty_params())
            } else {
                None
            }
        } else {
            match parse_members(s, p1, empty_params()) {
                None => None,
                Some(pq) => if skip_ws(s, pq.1) == s.len() {
                    Some(pq.0)
                } else {
                    None
                },
            }
        }
    }
}

/// Scans to the first non-whitespace byte.
fn skip_ws_exec(s: &Vec<u8>, p: usize) -> (r: usize)
    requires
        p <= s@.len(),
    ensures
        r == skip_ws(s@, p as int),
        p <= r <= s@.len(),
{
    let n = s.len();
    let mut q = p;
    while q < n && (s[q] == 32 || s[q] == 9 || s[q] == 10 || s[q] == 13)
        invariant
            p <= q <= n,
            n == s@.len(),
            skip_ws(s@, p as int) == skip_ws(s@, q as int),
        decreases n - q,
    {
        q = q + 1;
    }
    q
}

/// Reads the four hex digits of a `\u` escape.
fn hex4_exec(s: &Vec<u8>, p: usize) -> (r: Option<u64>)
    requires
        p + 4 <= s@.len(),
    ensures
        r is Some <==> hex4(s@, p as int) is Some,
        r matches Some(v) ==> hex4(s@, p as int) == Some(v as int),
{
    let n = s.len();
    proof {
        assert(p + 4 <= n);
    }
    let c0 = s[p];
    let c1 = s[p + 1];
    let c2 = s[p + 2];
    let c3 = s[p + 3];
    let h0 = crate::base16::is_hex_digit(c0);
    let h1 = crate::base16::is_hex_digit(c1);
    let h2 = crate::base16::is_hex_digit(c2);
    let h3 = crate::base16::is_hex_digit(c3);
    if h0 && h1 && h2 && h3 {
        let v = crate::base16::hex_digit_value(c0) as u64 * 4096 + crate::base16::hex_digit_value(
            c1,
        ) as u64 * 256 + crate::base16::hex_digit_value(c2) as u64 * 16
            + crate::base16::hex_digit_value(c3) as u64;
        Some(v)
    } else {
        None
    }
}

/// Appends the UTF-8 bytes of one scalar value.
fn push_scalar(out: &mut Vec<u8>, scalar: u32)
    requires
        scalar < 0x110000,
        !(0xD800 <= scalar < 0xE000),
    ensures
        final(out)@ == old(out)@ + encode_scalar(scalar),
{
    if scalar < 0x80 {
        out.push((scalar & 0x7F) as u8);
        proof {
            assert(final(out)@ =~= old(out)@ + encode_scalar(scalar));
        }
    } else if scalar < 0x800 {
        out.push(0xC0u8 | (((scalar >> 6) & 0x1F) as u8));
        out.push(0x80u8 | ((scalar & 0x3F) as u8));
        proof {
            assert(final(out)@ =~= old(out)@ + encode_scalar(scalar));
        }
    } else if scalar < 0x10000 {
        out.push(0xE0u8 | (((scalar >> 12) & 0x0F) as u8));
        out.push(0x80u8 | (((scalar >> 6) & 0x3F) as u8));
        out.push(0x80u8 | ((scalar & 0x3F) as u8));
        proof {
            assert(final(out)@ =~= old(out)@ + encode_scalar(scalar));
        }
    } else {
        out.push(0xF0u8 | (((scalar >> 18) & 0x7) as u8));
        out.push(0x80u8 | (((scalar >> 12) & 0x3F) as u8));
        out.push(0x80u8 | (((scalar >> 6) & 0x3F) as u8));
        out.push(0x80u8 | ((scalar & 0x3F) as u8));
        proof {
            assert(final(out)@ =~= old(out)@ + encode_scalar(scalar));
        }
    }
}

/// Reads a string body from just past the opening quote.
fn parse_str_body_exec(s: &Vec<u8>, p: usize) -> (r: Option<(Vec<u8>, usize)>)
    requires
        p <= s@.len(),
    ensures
        r is Some <==> parse_str_body(s@, p as int) is Some,
        r matches Some(bq) ==> parse_str_body(s@, p as int) == Some((bq.0@, bq.1 as int)),
{
    let n = s.len();
    let mut acc: Vec<u8> = Vec::new();
    let mut cur = p;
    loop
        invariant
            p <= cur <= n,
            n == s@.len(),
            match parse_str_body(s@, cur as int) {
                Some(rq) => parse_str_body(s@, p as int) == Some((acc@ + rq.0, rq.1)),
                None => parse_str_body(s@, p as int) is None,
            },
        decreases n - cur,
    {
        if cur >= n {
            return None;
        }
        let b = s[cur];
        if b == 34 {
            proof {
                assert(acc@ + Seq::<u8>::empty() =~= acc@);
            }
            return Some((acc, cur + 1));
        } else if b == 92 {
            if n - cur < 2 {
                return None;
            }
            let e = s[cur + 1];
            if e == 34 || e == 92 || e == 47 {
                proof {
                    assert(forall|rest: Seq<u8>| acc@ + (seq![e] + rest) =~= (acc@ + seq![e])
                        + rest);
                }
                acc.push(e);
                cur = cur + 2;
            } else if e == 98 {
                proof {
                    assert(forall|rest: Seq<u8>| acc@ + (seq![8u8] + rest) =~= (acc@ + seq![8u8])
                        + rest);
                }
                acc.push(8);
                cur = cur + 2;
            } else if e == 116 {
                proof {
                    assert(forall|rest: Seq<u8>| acc@ + (seq![9u8] + rest) =~= (acc@ + seq![9u8])
                        + rest);
                }
                acc.push(9);
                cur = cur + 2;
            } else if e == 110 {
                proof {
                    assert(forall|rest: Seq<u8>| acc@ + (seq![10u8] + rest) =~= (acc@ + seq![10u8])
                        + rest);
                }
                acc.push(10);
                cur = cur + 2;
            } else if e == 102 {
                proof {
                    assert(forall|rest: Seq<u8>| acc@ + (seq![12u8] + rest) =~= (acc@ + seq![12u8])
                        + rest);
                }
                acc.push(12);
                cur = cur + 2;
            } else if e == 114 {
                proof {
                    assert(forall|rest: Seq<u8>| acc@ + (seq![13u8] + rest) =~= (acc@ + seq![13u8])
                        + rest);
                }
                acc.push(13);
                cur = cur + 2;
            } else if e == 117 {
                if n - cur < 6 {
                    return None;
                }
                match hex4_exec(s, cur + 2) {
                    None => {
                        return None;
                    },
                    Some(cp) => {
                        if 0xD800 <= cp && cp < 0xDC00 {
                            if n - cur < 12 || s[cur + 6] != 92 || s[cur + 7] != 117 {
                                return None;
                            }
                            match hex4_exec(s, cur + 8) {
                                None => {
                                    return None;
                                },
                                Some(lo) => {
                                    if 0xDC00 <= lo && lo < 0xE000 {
                                        let scalar = (0x10000 + (cp - 0xD800) * 0x400 + (lo
                                            - 0xDC00)) as u32;
                                        proof {
                                            assert(forall|rest: Seq<u8>|
                                                acc@ + (encode_scalar(scalar) + rest) =~= (acc@
                                                    + encode_scalar(scalar)) + rest);
                                        }
                                        push_scalar(&mut acc, scalar);
                                        cur = cur + 12;
                                    } else {
                                        return None;
                                    }
                                },
                            }
                        } else if 0xDC00 <= cp && cp < 0xE000 {
                            return None;
                        } else {
                            let scalar = cp as u32;
                            proof {
                                assert(forall|rest: Seq<u8>| acc@ + (encode_scalar(scalar) + rest)
                                    =~= (acc@ + encode_scalar(scalar)) + rest);
                            }
                            push_scalar(&mut acc, scalar);
                            cur = cur + 6;
                        }
                    },
                }
            } else {
                return None;
            }
        } else if b < 32 {
            return None;
        } else {
            proof {
                assert(forall|rest: Seq<u8>| acc@ + (seq![b] + rest) =~= (acc@ + seq![b]) + rest);
            }
            acc.push(b);
            cur = cur + 1;
        }
    }
}

/// Scans to the end of a digit run.
fn digits_end_exec(s: &Vec<u8>, p: usize) -> (r: usize)
    requires
        p <= s@.len(),
    ensures
        r == digits_end(s@, p as int),
        p <= r <= s@.len(),
{
    let n = s.len();
    let mut q = p;
    while q < n && 48 <= s[q] && s[q] <= 57
        invariant
            p <= q <= n,
            n == s@.len(),
            digits_end(s@, p as int) == digits_end(s@, q as int),
        decreases n - q,
    {
        q = q + 1;
    }
    q
}

/// Reads a JSON number.
fn parse_number_exec(s: &Vec<u8>, p: usize) -> (r: Option<(Option<u64>, usize)>)
    requires
        p <= s@.len(),
    ensures
        r is Some <==> parse_number(s@, p as int) is Some,
        r matches Some(vq) ==> parse_number(s@, p as int) == Some((vq.0, vq.1 as int)),
{
    let n = s.len();
    let neg = p < n && s[p] == 45;
    let ip = if neg {
        p + 1
    } else {
        p
    };
    if ip >= n || s[ip] < 48 || s[ip] > 57 {
        return None;
    }
    let ie: usize;
    if s[ip] == 48 {
        ie = ip + 1;
    } else {
        ie = digits_end_exec(s, ip);
        proof {
            assert(digits_end(s@, ip as int) == digits_end(s@, ip + 1));
            lemma_digits_end(s@, ip + 1);
            assert(ie > ip);
        }
    }
    if ie < n && s[ip] == 48 && 48 <= s[ie] && s[ie] <= 57 {
        return None;
    }
    let has_frac = ie < n && s[ie] == 46;
    let fe: usize;
    if has_frac {
        if n - ie >= 2 && 48 <= s[ie + 1] && s[ie + 1] <= 57 {
            fe = digits_end_exec(s, ie + 1);
            proof {
                assert(digits_end(s@, ie + 1) == digits_end(s@, ie + 2));
                lemma_digits_end(s@, ie + 2);
                assert(fe > ie);
            }
        } else {
            return None;
        }
    } else {
        fe = ie;
    }
    let has_exp = fe < n && (s[fe] == 101 || s[fe] == 69);
    let ee: usize;
    if has_exp {
        let sp = if n - fe >= 2 && (s[fe + 1] == 43 || s[fe + 1] == 45) {
            fe + 2
        } else {
            fe + 1
        };
        if sp < n && 48 <= s[sp] && s[sp] <= 57 {
            ee = digits_end_exec(s, sp);
            proof {
                assert(digits_end(s@, sp as int) == digits_end(s@, sp + 1));
                lemma_digits_end(s@, sp + 1);
                assert(ee > fe);
            }
        } else {
            return None;
        }
    } else {
        ee = fe;
    }
    let val: Option<u64> = if !neg && !has_frac && !has_exp {
        let digits = crate::manifest::copy_range(s, ip, ie);
        crate::manifest::parse_dec_u64(&digits)
    } else {
        None
    };
    Some((val, ee))
}

/// Reads the object members and fills the request fields.
fn parse_members_exec(s: &Vec<u8>, p: usize) -> (r: Option<(RequestParams, usize)>)
    requires
        p <= s@.len(),
    ensures
        r is Some <==> parse_members(s@, p as int, empty_params()) is Some,
        r matches Some(pq) ==> parse_members(s@, p as int, empty_params()) == Some(
            (pq.0@, pq.1 as int),
        ),
        r matches Some(pq) ==> pq.1 <= s@.len(),
{
    let n = s.len();
    let mut acc = RequestParams { catalog: None, file: None, skip: None, take: None };
    let mut cur = p;
    loop
        invariant
            p <= cur <= n,
            n == s@.len(),
            parse_members(s@, p as int, empty_params()) == parse_members(s@, cur as int, acc@),
        decreases n - cur,
    {
        if cur >= n || s[cur] != 34 {
            return None;
        }
        let kq = match parse_str_body_exec(s, cur + 1) {
            None => {
                return None;
            },
            Some(kq) => kq,
        };
        proof {
            lemma_parse_str_body_bounds(s@, cur + 1);
        }
        let key = kq.0;
        let q1 = skip_ws_exec(s, kq.1);
        if q1 >= n || s[q1] != 58 {
            return None;
        }
        let q2 = skip_ws_exec(s, q1 + 1);
        let ghost old_acc = acc@;
        let ghost old_cur = cur as int;
        let vq: usize;
        let ghost vval: JsonVal;
        if q2 < n && s[q2] == 34 {
            let bq = match parse_str_body_exec(s, q2 + 1) {
                None => {
                    return None;
                },
                Some(bq) => bq,
            };
            proof {
                lemma_parse_str_body_bounds(s@, q2 + 1);
                vval = JsonVal::Str(bq.0@);
                assert(parse_value(s@, q2 as int) == Some((vval, bq.1 as int)));
            }
            vq = bq.1;
            acc = apply_pair_exec(acc, &key, JVal::Str(bq.0));
        } else if q2 < n && s[q2] == 116 {
            if !(n - q2 >= 4 && s[q2 + 1] == 114 && s[q2 + 2] == 117 && s[q2 + 3] == 101) {
                return None;
            }
            proof {
                vval = JsonVal::Bool(true);
            }
            acc = apply_pair_exec(acc, &key, JVal::Bool(true));
            vq = q2 + 4;
        } else if q2 < n && s[q2] == 102 {
            if !(n - q2 >= 5 && s[q2 + 1] == 97 && s[q2 + 2] == 108 && s[q2 + 3] == 115 && s[q2
                + 4] == 101) {
                return None;
            }
            proof {
                vval = JsonVal::Bool(false);
            }
            acc = apply_pair_exec(acc, &key, JVal::Bool(false));
            vq = q2 + 5;
        } else if q2 < n && s[q2] == 110 {
            if !(n - q2 >= 4 && s[q2 + 1] == 117 && s[q2 + 2] == 108 && s[q2 + 3] == 108) {
                return None;
            }
            proof {
                vval = JsonVal::Null;
            }
            acc = apply_pair_exec(acc, &key, JVal::Null);
            vq = q2 + 4;
        } else if q2 < n && (s[q2] == 45 || (48 <= s[q2] && s[q2] <= 57)) {
            let nq = match parse_number_exec(s, q2) {
                None => {
                    return None;
                },
                Some(nq) => nq,
            };
            proof {
                lemma_parse_number_bounds(s@, q2 as int);
                vval = JsonVal::Num(nq.0);
                assert(parse_value(s@, q2 as int) == Some((vval, nq.1 as int)));
            }
            acc = apply_pair_exec(acc, &key, JVal::Num(nq.0));
            vq = nq.1;
        } else {
            return None;
        }
        proof {
            assert(parse_value(s@, q2 as int) == Some((vval, vq as int)));
            assert(acc@ == apply_pair(old_acc, key@, vval));
        }
        let q3 = skip_ws_exec(s, vq);
        if q3 < n && s[q3] == 44 {
            cur = skip_ws_exec(s, q3 + 1);
            proof {
                assert(parse_members(s@, old_cur, old_acc) == parse_members(
                    s@,
                    cur as int,
                    acc@,
                ));
            }
        } else if q3 < n && s[q3] == 125 {
            return Some((acc, q3 + 1));
        } else {
            return None;
        }
    }
}

/// A JSON value carried between parsing steps.
pub(crate) enum JVal {
    Str(Vec<u8>),
    Num(Option<u64>),
    Bool(bool),
    Null,
}

impl JVal {
    pub(crate) open spec fn view_val(&self) -> JsonVal {
        match self {
            JVal::Str(b) => JsonVal::Str(b@),
            JVal::Num(n) => JsonVal::Num(*n),
            JVal::Bool(b) => JsonVal::Bool(*b),
            JVal::Null => JsonVal::Null,
        }
    }
}

/// Applies one key/value pair to the fields.
fn apply_pair_exec(acc: RequestParams, key: &Vec<u8>, val: JVal) -> (r: RequestParams)
    ensures
        r@ == apply_pair(acc@, key@, val.view_val()),
{
    let mut catalog_key: Vec<u8> = Vec::new();
    catalog_key.push(99);
    catalog_key.push(97);
    catalog_key.push(116);
    catalog_key.push(97);
    catalog_key.push(108);
    catalog_key.push(111);
    catalog_key.push(103);
    let mut file_key: Vec<u8> = Vec::new();
    file_key.push(102);
    file_key.push(105);
    file_key.push(108);
    file_key.push(101);
    let mut skip_key: Vec<u8> = Vec::new();
    skip_key.push(115);
    skip_key.push(107);
    skip_key.push(105);
    skip_key.push(112);
    let mut take_key: Vec<u8> = Vec::new();
    take_key.push(116);
    take_key.push(97);
    take_key.push(107);
    take_key.push(101);
    proof {
        assert(catalog_key@ =~= key_catalog());
        assert(file_key@ =~= key_file());
        assert(skip_key@ =~= key_skip());
        assert(take_key@ =~= key_take());
    }
    if crate::paths::eq_bytes(key, &catalog_key) {
        RequestParams {
            catalog: match val {
                JVal::Str(b) => Some(b),
                _ => None,
            },
            file: acc.file,
            skip: acc.skip,
            take: acc.take,
        }
    } else if crate::paths::eq_bytes(key, &file_key) {
        RequestParams {
            catalog: acc.catalog,
            file: match val {
                JVal::Str(b) => Some(b),
                _ => None,
            },
            skip: acc.skip,
            take: acc.take,
        }
    } else if crate::paths::eq_bytes(key, &skip_key) {
        RequestParams {
            catalog: acc.catalog,
            file: acc.file,
            skip: match val {
                JVal::Num(n) => n,
                _ => None,
            },
            take: acc.take,
        }
    } else if crate::paths::eq_bytes(key, &take_key) {
        RequestParams {
            catalog: acc.catalog,
            file: acc.file,
            skip: acc.skip,
            take: match val {
                JVal::Num(n) => n,
                _ => None,
            },
        }
    } else {
        acc
    }
}

/// Parses an envelope payload: one JSON object, nothing but whitespace
/// around it. Fails, as a malformed envelope, on anything else.
pub fn parse_envelope_bytes(s: &Vec<u8>) -> (r: Result<RequestParams, FilerError>)
    ensures
        r is Ok <==> spec_parse_envelope(s@) is Some,
        r matches Ok(p) ==> Some(p@) == spec_parse_envelope(s@),
        r is Err ==> r == Err::<RequestParams, FilerError>(FilerError::MalformedEnvelope),
{
    let n = s.len();
    let p0 = skip_ws_exec(s, 0);
    if p0 >= n || s[p0] != 123 {
        return Err(FilerError::MalformedEnvelope);
    }
    let p1 = skip_ws_exec(s, p0 + 1);
    if p1 < n && s[p1] == 125 {
        if skip_ws_exec(s, p1 + 1) == n {
            Ok(RequestParams { catalog: None, file: None, skip: None, take: None })
        } else {
            Err(FilerError::MalformedEnvelope)
        }
    } else {
        match parse_members_exec(s, p1) {
            None => Err(FilerError::MalformedEnvelope),
            Some(pq) => {
                if skip_ws_exec(s, pq.1) == n {
                    Ok(pq.0)
                } else {
                    Err(FilerError::MalformedEnvelope)
                }
            },
        }
    }
}

/// The JSON spelling of one string byte: quote and backslash escaped,
/// the named control escapes, `\u00xx` for the other control bytes,
/// everything else as itself.
pub open spec fn esc_byte(b: u8) -> Seq<u8> {
    if b == 34 {
        seq![92u8, 34]
    } else if b == 92 {
        seq![92u8, 92]
    } else if b == 8 {
        seq![92u8, 98]
    } else if b == 9 {
        seq![92u8, 116]
    } else if b == 10 {
        seq![92u8, 110]
    } else if b == 12 {
        seq![92u8, 102]
    } else if b == 13 {
        seq![92u8, 114]
    } else if b < 32 {
        seq![92u8, 117, 48, 48, spec_hex_lower(b / 16), spec_hex_lower(b % 16)]
    } else {
        seq![b]
    }
}

/// A byte string spelled inside JSON quotes.
pub open spec fn json_escape(s: Seq<u8>) -> Seq<u8>
    decreases s.len(),
{
    if s.len() == 0 {
        Seq::empty()
    } else {
        json_escape(s.drop_last()) + esc_byte(s.last())
    }
}

/// Appends the JSON spelling of `s`.
fn escape_into(out: &mut Vec<u8>, s: &Vec<u8>)
    ensures
        final(out)@ == old(out)@ + json_escape(s@),
{
    let n = s.len();
    let mut i: usize = 0;
    proof {
        assert(old(out)@ + json_escape(s@.take(0)) =~= old(out)@);
    }
    while i < n
        invariant
            i <= n,
            n == s@.len(),
            out@ == old(out)@ + json_escape(s@.take(i as int)),
        decreases n - i,
    {
        proof {
            assert(s@.take(i + 1).drop_last() =~= s@.take(i as int));
            assert(s@.take(i + 1).last() == s@[i as int]);
        }
        let b = s[i];
        if b == 34 {
            out.push(92);
            out.push(34);
        } else if b == 92 {
            out.push(92);
            out.push(92);
        } else if b == 8 {
            out.push(92);
            out.push(98);
        } else if b == 9 {
            out.push(92);
            out.push(116);
        } else if b == 10 {
            out.push(92);
            out.push(110);
        } else if b == 12 {
            out.push(92);
            out.push(102);
        } else if b == 13 {
            out.push(92);
            out.push(114);
        } else if b < 32 {
            out.push(92);
            out.push(117);
            out.push(48);
            out.push(48);
            out.push(crate::base16::hex_digit_lower(b / 16));
            out.push(crate::base16::hex_digit_lower(b % 16));
        } else {
            out.push(b);
        }
        proof {
            assert(out@ =~= old(out)@ + json_escape(s@.take(i + 1)));
        }
        i = i + 1;
    }
    proof {
        assert(s@.take(n as int) =~= s@);
    }
}

/// The compact JSON text clients send: `catalog` and `file` always,
/// `skip` and `take` when a range is requested, keys in that order.
pub open spec fn spec_params_json(
    catalog: Seq<u8>,
    file: Seq<u8>,
    skip: u64,
    take: u64,
    with_range: bool,
) -> Seq<u8> {
    seq![123u8, 34] + key_catalog() + seq![34u8, 58, 34] + json_escape(catalog) + seq![
        34u8,
        44,
        34,
    ] + key_file() + seq![34u8, 58, 34] + json_escape(file) + seq![34u8] + (if with_range {
        seq![44u8, 34] + key_skip() + seq![34u8, 58] + spec_dec(skip as int) + seq![44u8, 34]
            + key_take() + seq![34u8, 58] + spec_dec(take as int)
    } else {
        Seq::empty()
    }) + seq![125u8]
}

/// Renders the request object.
#[verifier::rlimit(60)]
pub fn emit_params(catalog: &Vec<u8>, file: &Vec<u8>, skip: u64, take: u64, with_range: bool) -> (r:
    Vec<u8>)
    ensures
        r@ == spec_params_json(catalog@, file@, skip, take, with_range),
{
    let mut out: Vec<u8> = Vec::new();
    out.push(123);
    out.push(34);
    out.push(99);
    out.push(97);
    out.push(116);
    out.push(97);
    out.push(108);
    out.push(111);
    out.push(103);
    out.push(34);
    out.push(58);
    out.push(34);
    escape_into(&mut out, catalog);
    out.push(34);
    out.push(44);
    out.push(34);
    out.push(102);
    out.push(105);
    out.push(108);
    out.push(101);
    out.push(34);
    out.push(58);
    out.push(34);
    escape_into(&mut out, file);
    out.push(34);
    if with_range {
        out.push(44);
        out.push(34);
        out.push(115);
        out.push(107);
        out.push(105);
        out.push(112);
        out.push(34);
        out.push(58);
        crate::manifest::push_dec(&mut out, skip);
        out.push(44);
        out.push(34);
        out.push(116);
        out.push(97);
        out.push(107);
        out.push(101);
        out.push(34);
        out.push(58);
        crate::manifest::push_dec(&mut out, take);
    }
    out.push(125);
    proof {
        assert(out@ =~= spec_params_json(catalog@, file@, skip, take, with_range));
    }
    out
}

/// The whole request envelope a client sends: the JSON text wrapped in
/// the hex obfuscation.
pub open spec fn spec_encode_request(
    catalog: Seq<u8>,
    file: Seq<u8>,
    skip: u64,
    take: u64,
    with_range: bool,
) -> Seq<char> {
    ascii_seq(spec_base16_encode_bytes(spec_params_json(catalog, file, skip, take, with_range)))
}

/// Builds the request envelope for a file, with a byte range when
/// `with_range` is set (a whole-file request carries no range).
pub fn encode_request(catalog: &Vec<u8>, file: &Vec<u8>, skip: u64, take: u64, with_range: bool) -> (r:
    String)
    ensures
        r@ == spec_encode_request(catalog@, file@, skip, take, with_range),
{
    let json = emit_params(catalog, file, skip, take, with_range);
    let obf = crate::base16::obfuscate_bytes(&json);
    let hexb = crate::base16::hex_bytes(&obf);
    proof {
        assert(all_ascii(hexb@));
        lemma_ascii_utf8(hexb@);
        vstd::utf8::encode_utf8_decode_utf8(ascii_seq(hexb@));
    }
    match bytes_to_string(hexb) {
        Some(s) => {
            proof {
                vstd::utf8::encode_utf8_decode_utf8(s@);
            }
            s
        },
        None => {
            proof {
                assert(false);
            }
            String::new()
        },
    }
}

/// What a received envelope resolves to: unwrap the hex obfuscation,
/// demand a UTF-8 payload, and parse the request object.
pub open spec fn spec_decode_request(env: Seq<char>) -> Option<ParamsView> {
    match spec_base16_decode_bytes(encode_utf8(env)) {
        Some(pb) => if valid_utf8(pb) {
            spec_parse_envelope(pb)
        } else {
            None
        },
        None => None,
    }
}

/// Where [`digits_end`] lands when the digits are known: past the run,
/// at the first non-digit.
proof fn lemma_digits_end_at(s: Seq<u8>, p: int, q: int)
    requires
        0 <= p <= q <= s.len(),
        forall|i: int| p <= i < q ==> is_digit(#[trigger] s[i]),
        q == s.len() || !is_digit(s[q]),
    ensures
        digits_end(s, p) == q,
    decreases q - p,
{
    if p == q {
    } else {
        lemma_digits_end_at(s, p + 1, q);
    }
}

/// A number rendered by [`spec_dec`] never starts with a zero unless it
/// is zero itself.
proof fn lemma_spec_dec_head(n: int)
    requires
        0 <= n,
    ensures
        n >= 10 ==> spec_dec(n)[0] != 48,
        n >= 10 ==> spec_dec(n).len() >= 2,
        spec_dec(n)[0] != 45,
        is_digit(spec_dec(n)[0]),
    decreases n,
{
    crate::manifest::lemma_dec_roundtrip(n);
    if n >= 10 {
        lemma_spec_dec_head(n / 10);
        crate::manifest::lemma_dec_roundtrip(n / 10);
        assert(spec_dec(n)[0] == spec_dec(n / 10)[0]);
    }
}

/// Escaping leaves a string of plain bytes untouched.
proof fn lemma_escape_plain(c: Seq<u8>)
    requires
        forall|i: int| 0 <= i < c.len() ==> 32 <= #[trigger] c[i] && c[i] != 34 && c[i] != 92,
    ensures
        json_escape(c) == c,
    decreases c.len(),
{
    if c.len() > 0 {
        assert(forall|i: int| 0 <= i < c.len() - 1 ==> c.drop_last()[i] == c[i]);
        lemma_escape_plain(c.drop_last());
        assert(esc_byte(c.last()) =~= seq![c.last()]);
        assert(json_escape(c) =~= c);
    }
}

/// An escaped string peels off its first byte's spelling.
proof fn lemma_escape_head(c: Seq<u8>)
    requires
        c.len() > 0,
    ensures
        json_escape(c) == esc_byte(c[0]) + json_escape(c.drop_first()),
    decreases c.len(),
{
    if c.len() == 1 {
        assert(c.drop_last() =~= Seq::<u8>::empty());
        assert(c.drop_first() =~= Seq::<u8>::empty());
        assert(json_escape(c) =~= esc_byte(c[0]) + json_escape(c.drop_first()));
    } else {
        lemma_escape_head(c.drop_last());
        assert(c.drop_last().drop_first() =~= c.drop_first().drop_last());
        assert(c.drop_last()[0] == c[0]);
        assert(c.drop_first().last() == c.last());
        assert(json_escape(c) == json_escape(c.drop_last()) + esc_byte(c.last()));
        assert(json_escape(c) =~= esc_byte(c[0]) + (json_escape(c.drop_first().drop_last())
            + esc_byte(c.drop_first().last())));
    }
}

/// Parsing undoes escaping: a string body that spells `json_escape(c)`
/// up to its closing quote parses to `c`.
proof fn lemma_parse_escaped(s: Seq<u8>, p: int, q: int, c: Seq<u8>)
    requires
        0 <= p <= q < s.len(),
        s.subrange(p, q) == json_escape(c),
        s[q] == 34,
    ensures
        parse_str_body(s, p) == Some((c, q + 1)),
    decreases c.len(),
{
    if c.len() == 0 {
        assert(q == p);
    } else {
        lemma_escape_head(c);
        let b = c[0];
        let e = esc_byte(b);
        let el = e.len() as int;
        assert(q - p == json_escape(c).len());
        assert(json_escape(c).len() == el + json_escape(c.drop_first()).len()) by {
            assert(json_escape(c) == e + json_escape(c.drop_first()));
        }
        assert forall|i: int| 0 <= i < el implies s[p + i] == e[i] by {
            assert(s.subrange(p, q)[i] == json_escape(c)[i]);
            assert(json_escape(c)[i] == e[i]);
        }
        assert(s.subrange(p + el, q) =~= json_escape(c.drop_first())) by {
            assert forall|i: int| 0 <= i < q - p - el implies s.subrange(p + el, q)[i]
                == json_escape(c.drop_first())[i] by {
                assert(s.subrange(p, q)[el + i] == json_escape(c)[el + i]);
                assert(json_escape(c)[el + i] == json_escape(c.drop_first())[i]);
            }
        }
        lemma_parse_escaped(s, p + el, q, c.drop_first());
        assert(seq![b] + c.drop_first() =~= c);
        if b == 34 || b == 92 {
            assert(s[p] == 92);
            assert(s[p + 1] == b);
        } else if b == 8 || b == 9 || b == 10 || b == 12 || b == 13 {
            assert(s[p] == 92);
        } else if b < 32 {
            assert(s[p] == 92);
            assert(s[p + 1] == 117);
            assert(s[p + 2] == 48);
            assert(s[p + 3] == 48);
            assert(s[p + 4] == spec_hex_lower((b / 16) as u8));
            assert(s[p + 5] == spec_hex_lower((b % 16) as u8));
            crate::base16::lemma_hex_pair_roundtrip(b);
            assert(spec_hex_value(48u8) == 0);
            assert(hex4(s, p + 2) == Some(b as int));
            assert(0xD800 > b as int);
            assert(encode_scalar(b as u32) =~= seq![b]) by {
                assert((b as u32) & 0x7F == b as u32) by (bit_vector)
                    requires
                        b < 32,
                ;
            }
        } else {
            assert(s[p] == b);
            assert(32 <= b && b != 34 && b != 92);
        }
    }
}

/// The two string pairs every request opens with: positions, keys and
/// values established for both request forms.
#[verifier::rlimit(100)]
#[verifier::spinoff_prover]
proof fn lemma_params_round_trip_plain(catalog: Seq<u8>, file: Seq<u8>, skip: u64, take: u64)
    ensures
        spec_parse_envelope(spec_params_json(catalog, file, skip, take, false)) == Some(
            ParamsView { catalog: Some(catalog), file: Some(file), skip: None, take: None },
        ),
{
    let s = spec_params_json(catalog, file, skip, take, false);
    let ec = json_escape(catalog);
    let ef = json_escape(file);
    let lc = ec.len() as int;
    let lf = ef.len() as int;
    assert(key_catalog().len() == 7);
    assert(key_file().len() == 4);
    let core = seq![123u8, 34] + key_catalog() + seq![34u8, 58, 34] + ec + seq![34u8, 44, 34]
        + key_file() + seq![34u8, 58, 34] + ef + seq![34u8];
    assert(s =~= core + seq![125u8]);
    let cl = 23 + lc + lf;
    assert(core.len() == cl);
    assert forall|i: int| 0 <= i < 7 implies s[2 + i] == key_catalog()[i] by {
        assert(core[2 + i] == key_catalog()[i]);
    }
    assert forall|i: int| 0 <= i < lc implies s[12 + i] == ec[i] by {
        assert(core[12 + i] == ec[i]);
    }
    assert forall|i: int| 0 <= i < 4 implies s[15 + lc + i] == key_file()[i] by {
        assert(core[15 + lc + i] == key_file()[i]);
    }
    assert forall|i: int| 0 <= i < lf implies s[22 + lc + i] == ef[i] by {
        assert(core[22 + lc + i] == ef[i]);
    }
    assert(s[0] == 123);
    assert(s[1] == 34);
    assert(s[9] == 34);
    assert(s[10] == 58);
    assert(s[11] == 34);
    assert(s[12 + lc] == 34);
    assert(s[13 + lc] == 44);
    assert(s[14 + lc] == 34);
    assert(s[19 + lc] == 34);
    assert(s[20 + lc] == 58);
    assert(s[21 + lc] == 34);
    assert(s[22 + lc + lf] == 34);
    assert(skip_ws(s, 0) == 0);
    assert(skip_ws(s, 1) == 1);
    assert(s.subrange(2, 9) =~= json_escape(key_catalog())) by {
        lemma_escape_plain(key_catalog());
        assert(s.subrange(2, 9) =~= key_catalog());
    }
    lemma_parse_escaped(s, 2, 9, key_catalog());
    assert(skip_ws(s, 10) == 10);
    assert(skip_ws(s, 11) == 11);
    assert(s.subrange(12, 12 + lc) =~= ec);
    lemma_parse_escaped(s, 12, 12 + lc, catalog);
    assert(parse_value(s, 11) == Some((JsonVal::Str(catalog), 13 + lc)));
    assert(skip_ws(s, 13 + lc) == 13 + lc);
    assert(skip_ws(s, 14 + lc) == 14 + lc);
    assert(s.subrange(15 + lc, 19 + lc) =~= json_escape(key_file())) by {
        lemma_escape_plain(key_file());
        assert(s.subrange(15 + lc, 19 + lc) =~= key_file());
    }
    lemma_parse_escaped(s, 15 + lc, 19 + lc, key_file());
    assert(skip_ws(s, 20 + lc) == 20 + lc);
    assert(skip_ws(s, 21 + lc) == 21 + lc);
    assert(s.subrange(22 + lc, 22 + lc + lf) =~= ef);
    lemma_parse_escaped(s, 22 + lc, 22 + lc + lf, file);
    assert(parse_value(s, 21 + lc) == Some((JsonVal::Str(file), cl)));
    assert(skip_ws(s, cl) == cl);
    let after_one = apply_pair(empty_params(), key_catalog(), JsonVal::Str(catalog));
    let after_two = apply_pair(after_one, key_file(), JsonVal::Str(file));
    assert(key_catalog() != key_file());
    assert(after_two == ParamsView {
        catalog: Some(catalog),
        file: Some(file),
        skip: None,
        take: None,
    });
    assert(s[cl] == 125);
    assert(s.len() == cl + 1);
    assert(parse_members(s, 14 + lc, after_one) == Some((after_two, cl + 1)));
    assert(parse_members(s, 1, empty_params()) == Some((after_two, cl + 1)));
    assert(skip_ws(s, cl + 1) == s.len() as int);
}

/// One `"key":number` pair at `p`, followed by a separator: the key
/// and value parse and the pair hands over just past the separator.
#[verifier::spinoff_prover]
proof fn lemma_parse_number_pair(s: Seq<u8>, p: int, key: Seq<u8>, n: u64, acc: ParamsView)
    requires
        0 <= p,
        p + 3 + key.len() + spec_dec(n as int).len() < s.len(),
        s[p] == 34,
        forall|i: int| 0 <= i < key.len() ==> s[p + 1 + i] == key[i],
        forall|i: int|
            0 <= i < key.len() ==> 97 <= #[trigger] key[i] <= 122,
        s[p + 1 + key.len()] == 34,
        s[p + 2 + key.len()] == 58,
        forall|i: int|
            0 <= i < spec_dec(n as int).len() ==> s[p + 3 + key.len() + i] == spec_dec(n as int)[i],
        s[p + 3 + key.len() + spec_dec(n as int).len()] == 44 || s[p + 3 + key.len() + spec_dec(
            n as int,
        ).len()] == 125,
        s[p + 3 + key.len() + spec_dec(n as int).len()] == 44 ==> p + 4 + key.len() + spec_dec(
            n as int,
        ).len() < s.len() && !is_ws(s[p + 4 + key.len() + spec_dec(n as int).len()]),
    ensures
        parse_members(s, p, acc) == ({
            let after = p + 3 + key.len() + spec_dec(n as int).len();
            let acc2 = apply_pair(acc, key, JsonVal::Num(Some(n)));
            if s[after] == 44 {
                parse_members(s, after + 1, acc2)
            } else {
                Some((acc2, after + 1))
            }
        }),
{
    let kl = key.len() as int;
    let d = spec_dec(n as int);
    let dl = d.len() as int;
    lemma_spec_dec_head(n as int);
    crate::manifest::lemma_dec_roundtrip(n as int);
    assert(s.subrange(p + 1, p + 1 + kl) =~= json_escape(key)) by {
        lemma_escape_plain(key);
        assert(s.subrange(p + 1, p + 1 + kl) =~= key);
    }
    lemma_parse_escaped(s, p + 1, p + 1 + kl, key);
    assert(skip_ws(s, p + 2 + kl) == p + 2 + kl);
    assert(skip_ws(s, p + 3 + kl) == p + 3 + kl);
    let np = p + 3 + kl;
    assert forall|i: int| np <= i < np + dl implies is_digit(#[trigger] s[i]) by {
        assert(s[i] == d[i - np]);
    }
    assert(is_digit(s[np]));
    assert(s.subrange(np, np + dl) =~= d);
    lemma_digits_end_at(s, np, np + dl);
    assert(parse_number(s, np) == Some((Some(n), np + dl))) by {
        if n == 0 {
            assert(dl == 1);
        } else if n < 10 {
        } else {
            lemma_digits_end_at(s, np + 1, np + dl);
        }
    }
    assert(parse_value(s, np) == Some((JsonVal::Num(Some(n)), np + dl)));
    assert(skip_ws(s, np + dl) == np + dl);
    assert(parse_str_body(s, p + 1) == Some((key, p + 2 + kl)));
    let after = np + dl;
    let acc2 = apply_pair(acc, key, JsonVal::Num(Some(n)));
    assert(p < s.len() && s[p] == 34);
    let q1 = skip_ws(s, p + 2 + kl);
    assert(q1 == p + 2 + kl);
    assert(q1 < s.len() && s[q1] == 58);
    let q2 = skip_ws(s, q1 + 1);
    assert(q2 == np);
    assert(parse_value(s, q2) == Some((JsonVal::Num(Some(n)), after)));
    let q3 = skip_ws(s, after);
    assert(q3 == after);
    assert(q3 < s.len());
    if s[after] == 44 {
        assert(skip_ws(s, after + 1) == after + 1);
        assert(parse_members(s, p, acc) == parse_members(s, after + 1, acc2));
    } else {
        assert(parse_members(s, p, acc) == Some((acc2, after + 1)));
    }
}

/// The envelope interop law, range form.
#[verifier::rlimit(100)]
#[verifier::spinoff_prover]
proof fn lemma_params_round_trip_range(catalog: Seq<u8>, file: Seq<u8>, skip: u64, take: u64)
    ensures
        spec_parse_envelope(spec_params_json(catalog, file, skip, take, true)) == Some(
            ParamsView {
                catalog: Some(catalog),
                file: Some(file),
                skip: Some(skip),
                take: Some(take),
            },
        ),
{
    let s = spec_params_json(catalog, file, skip, take, true);
    let ec = json_escape(catalog);
    let ef = json_escape(file);
    let lc = ec.len() as int;
    let lf = ef.len() as int;
    let ds = spec_dec(skip as int);
    let dt = spec_dec(take as int);
    let ls = ds.len() as int;
    let lt = dt.len() as int;
    assert(key_catalog().len() == 7);
    assert(key_file().len() == 4);
    assert(key_skip().len() == 4);
    assert(key_take().len() == 4);
    let body = seq![44u8, 34] + key_skip() + seq![34u8, 58] + ds + seq![44u8, 34] + key_take()
        + seq![34u8, 58] + dt;
    let core = seq![123u8, 34] + key_catalog() + seq![34u8, 58, 34] + ec + seq![34u8, 44, 34]
        + key_file() + seq![34u8, 58, 34] + ef + seq![34u8];
    assert(s =~= core + body + seq![125u8]);
    let cl = 23 + lc + lf;
    assert(core.len() == cl);
    assert forall|i: int| 0 <= i < 7 implies s[2 + i] == key_catalog()[i] by {
        assert(core[2 + i] == key_catalog()[i]);
    }
    assert forall|i: int| 0 <= i < lc implies s[12 + i] == ec[i] by {
        assert(core[12 + i] == ec[i]);
    }
    assert forall|i: int| 0 <= i < 4 implies s[15 + lc + i] == key_file()[i] by {
        assert(core[15 + lc + i] == key_file()[i]);
    }
    assert forall|i: int| 0 <= i < lf implies s[22 + lc + i] == ef[i] by {
        assert(core[22 + lc + i] == ef[i]);
    }
    assert forall|i: int| 0 <= i < 4 implies s[cl + 2 + i] == key_skip()[i] by {
        assert(body[2 + i] == key_skip()[i]);
    }
    assert forall|i: int| 0 <= i < ls implies s[cl + 8 + i] == ds[i] by {
        assert(body[8 + i] == ds[i]);
    }
    assert forall|i: int| 0 <= i < 4 implies s[cl + 10 + ls + i] == key_take()[i] by {
        assert(body[10 + ls + i] == key_take()[i]);
    }
    assert forall|i: int| 0 <= i < lt implies s[cl + 16 + ls + i] == dt[i] by {
        assert(body[16 + ls + i] == dt[i]);
    }
    assert(s[0] == 123);
    assert(s[1] == 34);
    assert(s[9] == 34);
    assert(s[10] == 58);
    assert(s[11] == 34);
    assert(s[12 + lc] == 34);
    assert(s[13 + lc] == 44);
    assert(s[14 + lc] == 34);
    assert(s[19 + lc] == 34);
    assert(s[20 + lc] == 58);
    assert(s[21 + lc] == 34);
    assert(s[22 + lc + lf] == 34);
    assert(s[cl] == 44);
    assert(s[cl + 1] == 34);
    assert(s[cl + 6] == 34);
    assert(s[cl + 7] == 58);
    assert(s[cl + 8 + ls] == 44);
    assert(s[cl + 9 + ls] == 34);
    assert(s[cl + 14 + ls] == 34);
    assert(s[cl + 15 + ls] == 58);
    assert(s[cl + 16 + ls + lt] == 125);
    assert(s.len() == cl + 17 + ls + lt);
    assert(skip_ws(s, 0) == 0);
    assert(skip_ws(s, 1) == 1);
    assert(s.subrange(2, 9) =~= json_escape(key_catalog())) by {
        lemma_escape_plain(key_catalog());
        assert(s.subrange(2, 9) =~= key_catalog());
    }
    lemma_parse_escaped(s, 2, 9, key_catalog());
    assert(skip_ws(s, 10) == 10);
    assert(skip_ws(s, 11) == 11);
    assert(s.subrange(12, 12 + lc) =~= ec);
    lemma_parse_escaped(s, 12, 12 + lc, catalog);
    assert(parse_value(s, 11) == Some((JsonVal::Str(catalog), 13 + lc)));
    assert(skip_ws(s, 13 + lc) == 13 + lc);
    assert(skip_ws(s, 14 + lc) == 14 + lc);
    assert(s.subrange(15 + lc, 19 + lc) =~= json_escape(key_file())) by {
        lemma_escape_plain(key_file());
        assert(s.subrange(15 + lc, 19 + lc) =~= key_file());
    }
    lemma_parse_escaped(s, 15 + lc, 19 + lc, key_file());
    assert(skip_ws(s, 20 + lc) == 20 + lc);
    assert(skip_ws(s, 21 + lc) == 21 + lc);
    assert(s.subrange(22 + lc, 22 + lc + lf) =~= ef);
    lemma_parse_escaped(s, 22 + lc, 22 + lc + lf, file);
    assert(parse_value(s, 21 + lc) == Some((JsonVal::Str(file), cl)));
    assert(skip_ws(s, cl) == cl);
    assert(skip_ws(s, cl + 1) == cl + 1);
    let after_one = apply_pair(empty_params(), key_catalog(), JsonVal::Str(catalog));
    let after_two = apply_pair(after_one, key_file(), JsonVal::Str(file));
    let after_three = apply_pair(after_two, key_skip(), JsonVal::Num(Some(skip)));
    let after_four = apply_pair(after_three, key_take(), JsonVal::Num(Some(take)));
    assert(key_catalog() != key_file());
    assert(key_skip() != key_catalog());
    assert(key_skip() != key_file()) by {
        assert(key_skip()[0] != key_file()[0]);
    }
    assert(key_take() != key_catalog());
    assert(key_take() != key_file()) by {
        assert(key_take()[0] != key_file()[0]);
    }
    assert(key_take() != key_skip()) by {
        assert(key_take()[0] != key_skip()[0]);
    }
    assert(after_four == ParamsView {
        catalog: Some(catalog),
        file: Some(file),
        skip: Some(skip),
        take: Some(take),
    });
    let fin = cl + 17 + ls + lt;
    assert forall|i: int| 0 <= i < 4 implies 97 <= #[trigger] key_skip()[i] <= 122 by {}
    assert forall|i: int| 0 <= i < 4 implies 97 <= #[trigger] key_take()[i] <= 122 by {}
    lemma_parse_number_pair(s, cl + 9 + ls, key_take(), take, after_three);
    assert(parse_members(s, cl + 9 + ls, after_three) == Some((after_four, fin)));
    lemma_parse_number_pair(s, cl + 1, key_skip(), skip, after_two);
    assert(skip_ws(s, cl + 9 + ls) == cl + 9 + ls);
    assert(parse_members(s, cl + 1, after_two) == Some((after_four, fin)));
    assert(parse_members(s, 14 + lc, after_one) == Some((after_four, fin)));
    assert(parse_members(s, 1, empty_params()) == Some((after_four, fin)));
    assert(skip_ws(s, fin) == s.len() as int);
}

/// The envelope interop law: the request object a client renders
/// parses back, on the server, to exactly the fields it was built
/// from; without a range the range fields stay absent.
pub proof fn lemma_params_round_trip(
    catalog: Seq<u8>,
    file: Seq<u8>,
    skip: u64,
    take: u64,
    with_range: bool,
)
    ensures
        spec_parse_envelope(spec_params_json(catalog, file, skip, take, with_range)) == Some(
            ParamsView {
                catalog: Some(catalog),
                file: Some(file),
                skip: if with_range {
                    Some(skip)
                } else {
                    None
                },
                take: if with_range {
                    Some(take)
                } else {
                    None
                },
            },
        ),
{
    if with_range {
        lemma_params_round_trip_range(catalog, file, skip, take);
    } else {
        lemma_params_round_trip_plain(catalog, file, skip, take);
    }
}

/// Decodes and parses a request envelope; every failure is a malformed
/// envelope.
pub fn decode_request(envelope: &str) -> (r: Result<RequestParams, FilerError>)
    ensures
        r is Ok <==> spec_decode_request(envelope@) is Some,
        r matches Ok(p) ==> Some(p@) == spec_decode_request(envelope@),
        r is Err ==> r == Err::<RequestParams, FilerError>(FilerError::MalformedEnvelope),
{
    match crate::base16::base16_decode(envelope) {
        Err(_) => Err(FilerError::MalformedEnvelope),
        Ok(payload) => {
            let data = slice_to_vec(payload.as_str().as_bytes());
            proof {
                let pb = spec_base16_decode_bytes(encode_utf8(envelope@)).unwrap();
                decode_utf8_encode_utf8(pb);
                assert(data@ == pb);
            }
            parse_envelope_bytes(&data)
        },
    }
}

} // verus!
