//! The server side of the range protocol: what a decoded request asks
//! for, and the exact replies. A good request is answered `200` with
//! the bytes and `x-skip`/`x-take` headers; every failure is answered
//! `406` with a plain-text message, marked by `x-body-is-error`. The
//! listener and the disk reads around these decisions live outside.

use vstd::prelude::*;

use crate::envelope::RequestParams;
use crate::errors::FilerError;
use crate::manifest::spec_dec;
use crate::parts::{read_full, read_range, spec_range_bytes, PartData};

verus! {

/// One HTTP reply: status, headers in order, body.
pub struct HttpReply {
    pub status: u16,
    pub headers: Vec<(Vec<u8>, Vec<u8>)>,
    pub body: Vec<u8>,
}

/// The bytes `x-skip`.
pub open spec fn hdr_x_skip() -> Seq<u8> {
    seq![120u8, 45, 115, 107, 105, 112]
}

/// The bytes `x-take`.
pub open spec fn hdr_x_take() -> Seq<u8> {
    seq![120u8, 45, 116, 97, 107, 101]
}

/// The bytes `content-type`.
pub open spec fn hdr_content_type() -> Seq<u8> {
    seq![99u8, 111, 110, 116, 101, 110, 116, 45, 116, 121, 112, 101]
}

/// The bytes `x-body-is-error`.
pub open spec fn hdr_body_is_error() -> Seq<u8> {
    seq![120u8, 45, 98, 111, 100, 121, 45, 105, 115, 45, 101, 114, 114, 111, 114]
}

/// The bytes `application/octet-stream`.
pub open spec fn octet_stream() -> Seq<u8> {
    seq![
        97u8,
        112,
        112,
        108,
        105,
        99,
        97,
        116,
        105,
        111,
        110,
        47,
        111,
        99,
        116,
        101,
        116,
        45,
        115,
        116,
        114,
        101,
        97,
        109,
    ]
}

/// The bytes `text/plain;charset=utf-8`.
pub open spec fn text_plain() -> Seq<u8> {
    seq![
        116u8,
        101,
        120,
        116,
        47,
        112,
        108,
        97,
        105,
        110,
        59,
        99,
        104,
        97,
        114,
        115,
        101,
        116,
        61,
        117,
        116,
        102,
        45,
        56,
    ]
}

/// The bytes `yes`.
pub open spec fn yes_bytes() -> Seq<u8> {
    seq![121u8, 101, 115]
}

/// The views of a reply's headers.
pub open spec fn header_views(h: Seq<(Vec<u8>, Vec<u8>)>) -> Seq<(Seq<u8>, Seq<u8>)> {
    h.map_values(|p: (Vec<u8>, Vec<u8>)| (p.0@, p.1@))
}

fn push_bytes(out: &mut Vec<u8>, b: u8)
    ensures
        final(out)@ == old(out)@.push(b),
{
    out.push(b);
}

/// The success reply: `200`, the part's offset and count as decimal
/// header values, the bytes as an octet-stream body.
pub fn ok_reply(part: PartData) -> (r: HttpReply)
    ensures
        r.status == 200,
        header_views(r.headers@) =~= seq![
            (hdr_x_skip(), spec_dec(part.skip as int)),
            (hdr_x_take(), spec_dec(part.take as int)),
            (hdr_content_type(), octet_stream()),
        ],
        r.body@ == part.bytes@,
{
    let mut skip_name: Vec<u8> = Vec::new();
    push_bytes(&mut skip_name, 120);
    push_bytes(&mut skip_name, 45);
    push_bytes(&mut skip_name, 115);
    push_bytes(&mut skip_name, 107);
    push_bytes(&mut skip_name, 105);
    push_bytes(&mut skip_name, 112);
    let mut skip_val: Vec<u8> = Vec::new();
    crate::manifest::push_dec(&mut skip_val, part.skip);
    let mut take_name: Vec<u8> = Vec::new();
    push_bytes(&mut take_name, 120);
    push_bytes(&mut take_name, 45);
    push_bytes(&mut take_name, 116);
    push_bytes(&mut take_name, 97);
    push_bytes(&mut take_name, 107);
    push_bytes(&mut take_name, 101);
    let mut take_val: Vec<u8> = Vec::new();
    crate::manifest::push_dec(&mut take_val, part.take);
    let ct_name = content_type_name();
    let ct_val = octet_stream_value();
    let mut headers: Vec<(Vec<u8>, Vec<u8>)> = Vec::new();
    proof {
        assert(skip_name@ =~= hdr_x_skip());
        assert(take_name@ =~= hdr_x_take());
        assert(skip_val@ =~= spec_dec(part.skip as int));
        assert(take_val@ =~= spec_dec(part.take as int));
    }
    headers.push((skip_name, skip_val));
    headers.push((take_name, take_val));
    headers.push((ct_name, ct_val));
    HttpReply { status: 200, headers, body: part.bytes }
}

fn content_type_name() -> (r: Vec<u8>)
    ensures
        r@ == hdr_content_type(),
{
    let mut v: Vec<u8> = Vec::new();
    push_bytes(&mut v, 99);
    push_bytes(&mut v, 111);
    push_bytes(&mut v, 110);
    push_bytes(&mut v, 116);
    push_bytes(&mut v, 101);
    push_bytes(&mut v, 110);
    push_bytes(&mut v, 116);
    push_bytes(&mut v, 45);
    push_bytes(&mut v, 116);
    push_bytes(&mut v, 121);
    push_bytes(&mut v, 112);
    push_bytes(&mut v, 101);
    proof {
        assert(v@ =~= hdr_content_type());
    }
    v
}

fn octet_stream_value() -> (r: Vec<u8>)
    ensures
        r@ == octet_stream(),
{
    let mut v: Vec<u8> = Vec::new();
    push_bytes(&mut v, 97);
    push_bytes(&mut v, 112);
    push_bytes(&mut v, 112);
    push_bytes(&mut v, 108);
    push_bytes(&mut v, 105);
    push_bytes(&mut v, 99);
    push_bytes(&mut v, 97);
    push_bytes(&mut v, 116);
    push_bytes(&mut v, 105);
    push_bytes(&mut v, 111);
    push_bytes(&mut v, 110);
    push_bytes(&mut v, 47);
    push_bytes(&mut v, 111);
    push_bytes(&mut v, 99);
    push_bytes(&mut v, 116);
    push_bytes(&mut v, 101);
    push_bytes(&mut v, 116);
    push_bytes(&mut v, 45);
    push_bytes(&mut v, 115);
    push_bytes(&mut v, 116);
    push_bytes(&mut v, 114);
    push_bytes(&mut v, 101);
    push_bytes(&mut v, 97);
    push_bytes(&mut v, 109);
    proof {
        assert(v@ =~= octet_stream());
    }
    v
}

fn text_plain_value() -> (r: Vec<u8>)
    ensures
        r@ == text_plain(),
{
    let mut v: Vec<u8> = Vec::new();
    push_bytes(&mut v, 116);
    push_bytes(&mut v, 101);
    push_bytes(&mut v, 120);
    push_bytes(&mut v, 116);
    push_bytes(&mut v, 47);
    push_bytes(&mut v, 112);
    push_bytes(&mut v, 108);
    push_bytes(&mut v, 97);
    push_bytes(&mut v, 105);
    push_bytes(&mut v, 110);
    push_bytes(&mut v, 59);
    push_bytes(&mut v, 99);
    push_bytes(&mut v, 104);
    push_bytes(&mut v, 97);
    push_bytes(&mut v, 114);
    push_bytes(&mut v, 115);
    push_bytes(&mut v, 101);
    push_bytes(&mut v, 116);
    push_bytes(&mut v, 61);
    push_bytes(&mut v, 117);
    push_bytes(&mut v, 116);
    push_bytes(&mut v, 102);
    push_bytes(&mut v, 45);
    push_bytes(&mut v, 56);
    proof {
        assert(v@ =~= text_plain());
    }
    v
}

/// The failure reply: `406`, the error mark, a plain-text body.
pub fn error_reply(msg: Vec<u8>) -> (r: HttpReply)
    ensures
        r.status == 406,
        header_views(r.headers@) =~= seq![
            (hdr_body_is_error(), yes_bytes()),
            (hdr_content_type(), text_plain()),
        ],
        r.body@ == msg@,
{
    let mut err_name: Vec<u8> = Vec::new();
    push_bytes(&mut err_name, 120);
    push_bytes(&mut err_name, 45);
    push_bytes(&mut err_name, 98);
    push_bytes(&mut err_name, 111);
    push_bytes(&mut err_name, 100);
    push_bytes(&mut err_name, 121);
    push_bytes(&mut err_name, 45);
    push_bytes(&mut err_name, 105);
    push_bytes(&mut err_name, 115);
    push_bytes(&mut err_name, 45);
    push_bytes(&mut err_name, 101);
    push_bytes(&mut err_name, 114);
    push_bytes(&mut err_name, 114);
    push_bytes(&mut err_name, 111);
    push_bytes(&mut err_name, 114);
    let mut err_val: Vec<u8> = Vec::new();
    push_bytes(&mut err_val, 121);
    push_bytes(&mut err_val, 101);
    push_bytes(&mut err_val, 115);
    let ct_name = content_type_name();
    let ct_val = text_plain_value();
    proof {
        assert(err_name@ =~= hdr_body_is_error());
        assert(err_val@ =~= yes_bytes());
    }
    let mut headers: Vec<(Vec<u8>, Vec<u8>)> = Vec::new();
    headers.push((err_name, err_val));
    headers.push((ct_name, ct_val));
    HttpReply { status: 406, headers, body: msg }
}

/// The bytes `tcsoftV6`, the default catalog name.
pub open spec fn default_catalog() -> Seq<u8> {
    seq![116u8, 99, 115, 111, 102, 116, 86, 54]
}

/// The catalog a request addresses: its `catalog` field, or the
/// default.
pub fn catalog_of(params: &RequestParams) -> (r: Vec<u8>)
    ensures
        r@ == match params@.catalog {
            Some(c) => c,
            None => default_catalog(),
        },
{
    match &params.catalog {
        Some(c) => crate::parts::copy_bytes(c),
        None => {
            let mut v: Vec<u8> = Vec::new();
            push_bytes(&mut v, 116);
            push_bytes(&mut v, 99);
            push_bytes(&mut v, 115);
            push_bytes(&mut v, 111);
            push_bytes(&mut v, 102);
            push_bytes(&mut v, 116);
            push_bytes(&mut v, 86);
            push_bytes(&mut v, 54);
            proof {
                assert(v@ =~= default_catalog());
            }
            v
        },
    }
}

/// What a request asks to read.
pub enum ReadPlan {
    /// The whole file (`take` absent or zero).
    Full,
    /// `take` bytes from offset `skip`.
    Range { skip: u64, take: u64 },
}

/// The file and range a request asks for. A request without a nonempty
/// file name asks for nothing.
pub fn resolve_request(params: &RequestParams) -> (r: Result<(Vec<u8>, ReadPlan), FilerError>)
    ensures
        r is Ok <==> (params@.file is Some && params@.file.unwrap().len() > 0),
        r matches Ok(fp) ==> {
            &&& Some(fp.0@) == params@.file
            &&& (match fp.1 {
                ReadPlan::Full => params@.take is None || params@.take == Some(0u64),
                ReadPlan::Range { skip, take } => {
                    &&& params@.take == Some(take)
                    &&& take != 0
                    &&& skip == (match params@.skip {
                        Some(sk) => sk,
                        None => 0u64,
                    })
                },
            })
        },
        r is Err ==> r == Err::<(Vec<u8>, ReadPlan), FilerError>(FilerError::MalformedEnvelope),
{
    match &params.file {
        None => Err(FilerError::MalformedEnvelope),
        Some(f) => {
            if f.len() == 0 {
                return Err(FilerError::MalformedEnvelope);
            }
            let file = crate::parts::copy_bytes(f);
            let take = match params.take {
                Some(t) => t,
                None => 0,
            };
            if take == 0 {
                Ok((file, ReadPlan::Full))
            } else {
                let skip = match params.skip {
                    Some(sk) => sk,
                    None => 0,
                };
                Ok((file, ReadPlan::Range { skip, take }))
            }
        },
    }
}

/// Reads what the plan asks from the file's bytes: everything, or the
/// range clamped at the end of the file.
pub fn serve_read(content: &Vec<u8>, plan: &ReadPlan) -> (r: Result<PartData, FilerError>)
    ensures
        r matches Ok(p) ==> match plan {
            ReadPlan::Full => p.skip == 0 && p.bytes@ == content@ && p.take == content@.len(),
            ReadPlan::Range { skip, take } => p.skip == skip && p.bytes@ == spec_range_bytes(
                content@,
                *skip as int,
                *take as int,
            ) && p.take == p.bytes@.len(),
        },
        r is Ok <==> match plan {
            ReadPlan::Full => true,
            ReadPlan::Range { skip, take } => skip <= content@.len(),
        },
        r is Err ==> r == Err::<PartData, FilerError>(FilerError::OutOfRange),
{
    match plan {
        ReadPlan::Full => Ok(read_full(content)),
        ReadPlan::Range { skip, take } => read_range(content, *skip, *take),
    }
}

/// The message sent for an envelope that would not decode: it names
/// the expected form and carries a literal example envelope, then the
/// offending parameter.
pub open spec fn bad_envelope_message(param: Seq<u8>) -> Seq<u8> {
    msg_prefix() + example_envelope() + msg_middle() + param + seq![32u8]
}

/// The bytes `Error: download file fail, expect base16 encoded string
/// as param,for example: `.
pub open spec fn msg_prefix() -> Seq<u8> {
    seq![
        69u8,
        114,
        114,
        111,
        114,
        58,
        32,
        100,
        111,
        119,
        110,
        108,
        111,
        97,
        100,
        32,
        102,
        105,
        108,
        101,
        32,
        102,
        97,
        105,
        108,
        44,
        32,
        101,
        120,
        112,
        101,
        99,
        116,
        32,
        98,
        97,
        115,
        101,
        49,
        54,
        32,
        101,
        110,
        99,
        111,
        100,
        101,
        100,
        32,
        115,
        116,
        114,
        105,
        110,
        103,
        32,
        97,
        115,
        32,
        112,
        97,
        114,
        97,
        109,
        44,
        102,
        111,
        114,
        32,
        101,
        120,
        97,
        109,
        112,
        108,
        101,
        58,
        32,
    ]
}

/// The bytes `, but get param: `.
pub open spec fn msg_middle() -> Seq<u8> {
    seq![44u8, 32, 98, 117, 116, 32, 103, 101, 116, 32, 112, 97, 114, 97, 109, 58, 32]
}

/// The example envelope in the message: the default catalog's manifest
/// request, encoded.
pub open spec fn example_envelope() -> Seq<u8> {
    crate::base16::spec_base16_encode_bytes(
        crate::envelope::spec_params_json(
            default_catalog(),
            crate::paths::filelist_txt(),
            0,
            0,
            false,
        ),
    )
}

/// Builds the bad-envelope message around the offending parameter.
#[verifier::rlimit(60)]
pub fn build_bad_envelope_message(param: &Vec<u8>) -> (r: Vec<u8>)
    ensures
        r@ == bad_envelope_message(param@),
{
    let mut out: Vec<u8> = Vec::new();
    let mut prefix = msg_prefix_bytes();
    out.append(&mut prefix);
    let catalog = catalog_of(&RequestParams { catalog: None, file: None, skip: None, take: None });
    let mut listfile: Vec<u8> = Vec::new();
    push_bytes(&mut listfile, 102);
    push_bytes(&mut listfile, 105);
    push_bytes(&mut listfile, 108);
    push_bytes(&mut listfile, 101);
    push_bytes(&mut listfile, 108);
    push_bytes(&mut listfile, 105);
    push_bytes(&mut listfile, 115);
    push_bytes(&mut listfile, 116);
    push_bytes(&mut listfile, 46);
    push_bytes(&mut listfile, 116);
    push_bytes(&mut listfile, 120);
    push_bytes(&mut listfile, 116);
    proof {
        assert(listfile@ =~= crate::paths::filelist_txt());
    }
    let json = crate::envelope::emit_params(&catalog, &listfile, 0, 0, false);
    let obf = crate::base16::obfuscate_bytes(&json);
    let mut example = crate::base16::hex_bytes(&obf);
    out.append(&mut example);
    let mut middle = msg_middle_bytes();
    out.append(&mut middle);
    let mut par = crate::parts::copy_bytes(param);
    out.append(&mut par);
    push_bytes(&mut out, 32);
    proof {
        assert(out@ =~= bad_envelope_message(param@));
    }
    out
}

fn msg_prefix_bytes() -> (r: Vec<u8>)
    ensures
        r@ == msg_prefix(),
{
    let mut v: Vec<u8> = Vec::new();
    push_bytes(&mut v, 69);
    push_bytes(&mut v, 114);
    push_bytes(&mut v, 114);
    push_bytes(&mut v, 111);
    push_bytes(&mut v, 114);
    push_bytes(&mut v, 58);
    push_bytes(&mut v, 32);
    push_bytes(&mut v, 100);
    push_bytes(&mut v, 111);
    push_bytes(&mut v, 119);
    push_bytes(&mut v, 110);
    push_bytes(&mut v, 108);
    push_bytes(&mut v, 111);
    push_bytes(&mut v, 97);
    push_bytes(&mut v, 100);
    push_bytes(&mut v, 32);
    push_bytes(&mut v, 102);
    push_bytes(&mut v, 105);
    push_bytes(&mut v, 108);
    push_bytes(&mut v, 101);
    push_bytes(&mut v, 32);
    push_bytes(&mut v, 102);
    push_bytes(&mut v, 97);
    push_bytes(&mut v, 105);
    push_bytes(&mut v, 108);
    push_bytes(&mut v, 44);
    push_bytes(&mut v, 32);
    push_bytes(&mut v, 101);
    push_bytes(&mut v, 120);
    push_bytes(&mut v, 112);
    push_bytes(&mut v, 101);
    push_bytes(&mut v, 99);
    push_bytes(&mut v, 116);
    push_bytes(&mut v, 32);
    push_bytes(&mut v, 98);
    push_bytes(&mut v, 97);
    push_bytes(&mut v, 115);
    push_bytes(&mut v, 101);
    push_bytes(&mut v, 49);
    push_bytes(&mut v, 54);
    push_bytes(&mut v, 32);
    push_bytes(&mut v, 101);
    push_bytes(&mut v, 110);
    push_bytes(&mut v, 99);
    push_bytes(&mut v, 111);
    push_bytes(&mut v, 100);
    push_bytes(&mut v, 101);
    push_bytes(&mut v, 100);
    push_bytes(&mut v, 32);
    push_bytes(&mut v, 115);
    push_bytes(&mut v, 116);
    push_bytes(&mut v, 114);
    push_bytes(&mut v, 105);
    push_bytes(&mut v, 110);
    push_bytes(&mut v, 103);
    push_bytes(&mut v, 32);
    push_bytes(&mut v, 97);
    push_bytes(&mut v, 115);
    push_bytes(&mut v, 32);
    push_bytes(&mut v, 112);
    push_bytes(&mut v, 97);
    push_bytes(&mut v, 114);
    push_bytes(&mut v, 97);
    push_bytes(&mut v, 109);
    push_bytes(&mut v, 44);
    push_bytes(&mut v, 102);
    push_bytes(&mut v, 111);
    push_bytes(&mut v, 114);
    push_bytes(&mut v, 32);
    push_bytes(&mut v, 101);
    push_bytes(&mut v, 120);
    push_bytes(&mut v, 97);
    push_bytes(&mut v, 109);
    push_bytes(&mut v, 112);
    push_bytes(&mut v, 108);
    push_bytes(&mut v, 101);
    push_bytes(&mut v, 58);
    push_bytes(&mut v, 32);
    proof {
        assert(v@ =~= msg_prefix());
    }
    v
}

fn msg_middle_bytes() -> (r: Vec<u8>)
    ensures
        r@ == msg_middle(),
{
    let mut v: Vec<u8> = Vec::new();
    push_bytes(&mut v, 44);
    push_bytes(&mut v, 32);
    push_bytes(&mut v, 98);
    push_bytes(&mut v, 117);
    push_bytes(&mut v, 116);
    push_bytes(&mut v, 32);
    push_bytes(&mut v, 103);
    push_bytes(&mut v, 101);
    push_bytes(&mut v, 116);
    push_bytes(&mut v, 32);
    push_bytes(&mut v, 112);
    push_bytes(&mut v, 97);
    push_bytes(&mut v, 114);
    push_bytes(&mut v, 97);
    push_bytes(&mut v, 109);
    push_bytes(&mut v, 58);
    push_bytes(&mut v, 32);
    proof {
        assert(v@ =~= msg_middle());
    }
    v
}

} // verus!
