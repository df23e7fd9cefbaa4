//! The client side of the range protocol: building the request envelope
//! for a file or byte range, and reading the server's answer back into a
//! part. The HTTP call itself happens outside; this module decides what
//! is sent and what every possible answer means.

use vstd::prelude::*;

use crate::envelope::spec_encode_request;
use crate::errors::FilerError;
use crate::manifest::{dec_value, is_dec_u64};
use crate::parts::PartData;

verus! {

/// The envelope a client sends for a file: a bare `catalog`/`file`
/// object for the whole file (`take == 0`), the range keys otherwise.
pub fn request_envelope(catalog: &Vec<u8>, file: &Vec<u8>, skip: u64, take: u64) -> (r: String)
    ensures
        r@ == spec_encode_request(catalog@, file@, skip, take, take != 0),
{
    crate::envelope::encode_request(catalog, file, skip, take, take != 0)
}

/// What a received range header means: absent falls back to the
/// requested value, a decimal fits, anything else fails the part.
pub open spec fn header_value(h: Option<Seq<u8>>, fallback: u64) -> Option<u64> {
    match h {
        None => Some(fallback),
        Some(b) => if is_dec_u64(b) {
            Some(dec_value(b) as u64)
        } else {
            None
        },
    }
}

/// Reads one range response.
///
/// A `200` carries the part: its offset and count from the `x-skip` and
/// `x-take` headers, falling back to the requested range where a header
/// is absent, with the body as the bytes; an unreadable header fails
/// the part as a transport error. A `406` marked as an error body is a
/// transport error (its body is the server's message). Any other
/// status is outside the protocol.
pub fn interpret_response(
    status: u16,
    has_error_header: bool,
    skip_header: Option<Vec<u8>>,
    take_header: Option<Vec<u8>>,
    body: Vec<u8>,
    req_skip: u64,
    req_take: u64,
) -> (r: Result<PartData, FilerError>)
    ensures
        r is Ok <==> (status == 200 && header_value(
            match skip_header {
                Some(ref h) => Some(h@),
                None => None,
            },
            req_skip,
        ) is Some && header_value(
            match take_header {
                Some(ref h) => Some(h@),
                None => None,
            },
            req_take,
        ) is Some),
        r matches Ok(p) ==> {
            &&& Some(p.skip) == header_value(
                match skip_header {
                    Some(ref h) => Some(h@),
                    None => None,
                },
                req_skip,
            )
            &&& Some(p.take) == header_value(
                match take_header {
                    Some(ref h) => Some(h@),
                    None => None,
                },
                req_take,
            )
            &&& p.bytes@ == body@
        },
        r is Err ==> (status != 200 || r == Err::<PartData, FilerError>(FilerError::Transport)),
        status == 406 && has_error_header ==> r == Err::<PartData, FilerError>(
            FilerError::Transport,
        ),
        status != 200 && !(status == 406 && has_error_header) ==> r == Err::<PartData, FilerError>(
            FilerError::BadStatus,
        ),
{
    if status == 200 {
        let skip = match skip_header {
            None => req_skip,
            Some(h) => match crate::manifest::parse_dec_u64(&h) {
                Some(v) => v,
                None => {
                    return Err(FilerError::Transport);
                },
            },
        };
        let take = match take_header {
            None => req_take,
            Some(h) => match crate::manifest::parse_dec_u64(&h) {
                Some(v) => v,
                None => {
                    return Err(FilerError::Transport);
                },
            },
        };
        Ok(PartData { skip, take, bytes: body })
    } else if status == 406 && has_error_header {
        Err(FilerError::Transport)
    } else {
        Err(FilerError::BadStatus)
    }
}

} // verus!
