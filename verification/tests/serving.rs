use filer::base16::base16_encode;
use filer::envelope::{decode_request, RequestParams};
use filer::errors::FilerError;
use filer::server::{
    build_bad_envelope_message, catalog_of, error_reply, ok_reply, resolve_request, serve_read,
    ReadPlan,
};
use filer::transport::interpret_response;

#[test]
fn default_catalog_applies() {
    let params = RequestParams { catalog: None, file: None, skip: None, take: None };
    assert_eq!(catalog_of(&params), b"tcsoftV6".to_vec());
    let params = RequestParams { catalog: Some(b"c2".to_vec()), file: None, skip: None, take: None };
    assert_eq!(catalog_of(&params), b"c2".to_vec());
}

#[test]
fn missing_file_is_rejected() {
    let params = RequestParams { catalog: None, file: None, skip: None, take: None };
    assert!(resolve_request(&params).is_err());
    let params = RequestParams { catalog: None, file: Some(Vec::new()), skip: None, take: None };
    assert!(resolve_request(&params).is_err());
}

#[test]
fn zero_take_reads_whole_file() {
    let params = RequestParams {
        catalog: None,
        file: Some(b"a.bin".to_vec()),
        skip: Some(3),
        take: None,
    };
    let (file, plan) = resolve_request(&params).unwrap();
    assert_eq!(file, b"a.bin".to_vec());
    assert!(matches!(plan, ReadPlan::Full));
    let content = b"0123456789".to_vec();
    let part = serve_read(&content, &plan).unwrap();
    assert_eq!((part.skip, part.take), (0, 10));
    assert_eq!(part.bytes, content);
}

#[test]
fn range_request_is_served_clamped() {
    let params = RequestParams {
        catalog: None,
        file: Some(b"a.bin".to_vec()),
        skip: Some(6),
        take: Some(100),
    };
    let (_, plan) = resolve_request(&params).unwrap();
    let content = b"0123456789".to_vec();
    let part = serve_read(&content, &plan).unwrap();
    assert_eq!((part.skip, part.take), (6, 4));
    assert_eq!(part.bytes, b"6789".to_vec());
}

#[test]
fn replies_carry_protocol_headers() {
    let content = b"abc".to_vec();
    let part = filer::parts::read_full(&content);
    let reply = ok_reply(part);
    assert_eq!(reply.status, 200);
    assert_eq!(reply.headers[0], (b"x-skip".to_vec(), b"0".to_vec()));
    assert_eq!(reply.headers[1], (b"x-take".to_vec(), b"3".to_vec()));
    assert_eq!(
        reply.headers[2],
        (b"content-type".to_vec(), b"application/octet-stream".to_vec())
    );
    assert_eq!(reply.body, b"abc".to_vec());

    let reply = error_reply(b"boom".to_vec());
    assert_eq!(reply.status, 406);
    assert_eq!(reply.headers[0], (b"x-body-is-error".to_vec(), b"yes".to_vec()));
    assert_eq!(
        reply.headers[1],
        (b"content-type".to_vec(), b"text/plain;charset=utf-8".to_vec())
    );
    assert_eq!(reply.body, b"boom".to_vec());
}

#[test]
fn bad_envelope_message_carries_example() {
    // The envelope "zz" does not decode; the 406 body must contain a
    // literal example of a valid envelope.
    assert!(matches!(decode_request("zz"), Err(FilerError::MalformedEnvelope)));
    let msg = build_bad_envelope_message(&b"zz".to_vec());
    let example = base16_encode(r#"{"catalog":"tcsoftV6","file":"filelist.txt"}"#).unwrap();
    let msg_text = String::from_utf8(msg).unwrap();
    assert!(msg_text.contains(&example));
    assert!(msg_text.contains("zz"));
}

#[test]
fn client_reads_range_headers() {
    let part = interpret_response(
        200,
        false,
        Some(b"128".to_vec()),
        Some(b"64".to_vec()),
        vec![7; 64],
        0,
        0,
    )
    .unwrap();
    assert_eq!((part.skip, part.take), (128, 64));
    assert_eq!(part.bytes.len(), 64);
}

#[test]
fn client_falls_back_to_requested_range() {
    let part = interpret_response(200, false, None, None, b"abcd".to_vec(), 4, 4).unwrap();
    assert_eq!((part.skip, part.take), (4, 4));
}

#[test]
fn client_rejects_unreadable_header() {
    let r = interpret_response(200, false, Some(b"12x".to_vec()), None, Vec::new(), 0, 0);
    assert_eq!(r.map(|_| ()), Err(FilerError::Transport));
}

#[test]
fn client_maps_error_statuses() {
    let r = interpret_response(406, true, None, None, b"msg".to_vec(), 0, 0);
    assert_eq!(r.map(|_| ()), Err(FilerError::Transport));
    let r = interpret_response(500, false, None, None, Vec::new(), 0, 0);
    assert_eq!(r.map(|_| ()), Err(FilerError::BadStatus));
    let r = interpret_response(406, false, None, None, Vec::new(), 0, 0);
    assert_eq!(r.map(|_| ()), Err(FilerError::BadStatus));
}
