use filer::base16::{base16_decode, base16_encode};
use filer::envelope::{decode_request, encode_request};
use filer::errors::FilerError;

#[test]
fn test_base16_decode() {
    let base16 = "8268521a764e1984";
    let result = base16_decode(base16).unwrap();
    assert_eq!(result, "{汉字}");
}

#[test]
fn test_base16_encode() {
    let info = "{汉字}";
    let result = base16_encode(info).unwrap();
    assert_eq!(result, "8268521a764e1984");
}

#[test]
fn base16_round_trip_ascii() {
    let info = r#"{"catalog":"tcsoftV6","file":"filelist.txt"}"#;
    let wire = base16_encode(info).unwrap();
    assert_eq!(base16_decode(&wire).unwrap(), info);
}

#[test]
fn base16_round_trip_unicode() {
    let info = "snowman ☃ and null-ish \u{1F600}";
    let wire = base16_encode(info).unwrap();
    assert_eq!(base16_decode(&wire).unwrap(), info);
}

#[test]
fn base16_decode_rejects_odd_length() {
    assert_eq!(base16_decode("abc"), Err(FilerError::MalformedEnvelope));
}

#[test]
fn base16_decode_rejects_non_hex() {
    assert_eq!(base16_decode("zz"), Err(FilerError::MalformedEnvelope));
}

#[test]
fn base16_decode_accepts_uppercase_hex() {
    let wire = base16_encode("hi").unwrap().to_uppercase();
    assert_eq!(base16_decode(&wire).unwrap(), "hi");
}

#[test]
fn envelope_request_round_trip_full_file() {
    let env = encode_request(&b"tcsoftV6".to_vec(), &b"filelist.txt".to_vec(), 0, 0, false);
    let params = decode_request(&env).unwrap();
    assert_eq!(params.catalog.as_deref(), Some(b"tcsoftV6".as_slice()));
    assert_eq!(params.file.as_deref(), Some(b"filelist.txt".as_slice()));
    assert_eq!(params.skip, None);
    assert_eq!(params.take, None);
}

#[test]
fn envelope_request_round_trip_range() {
    let env = encode_request(&b"cat".to_vec(), &b"dir/a.bin".to_vec(), 65536, 4096, true);
    let params = decode_request(&env).unwrap();
    assert_eq!(params.catalog.as_deref(), Some(b"cat".as_slice()));
    assert_eq!(params.file.as_deref(), Some(b"dir/a.bin".as_slice()));
    assert_eq!(params.skip, Some(65536));
    assert_eq!(params.take, Some(4096));
}

#[test]
fn envelope_matches_plain_json_encoding() {
    // The envelope is exactly the hex obfuscation of the compact JSON
    // object, as a by-hand encode of the same text shows.
    let env = encode_request(&b"tcsoftV6".to_vec(), &b"filelist.txt".to_vec(), 0, 0, false);
    let by_hand = base16_encode(r#"{"catalog":"tcsoftV6","file":"filelist.txt"}"#).unwrap();
    assert_eq!(env, by_hand);
}

#[test]
fn envelope_decode_rejects_bad_hex() {
    assert!(matches!(decode_request("zz"), Err(FilerError::MalformedEnvelope)));
}

#[test]
fn envelope_decode_rejects_non_json_payload() {
    let env = base16_encode("not json at all").unwrap();
    assert!(matches!(decode_request(&env), Err(FilerError::MalformedEnvelope)));
}

#[test]
fn envelope_decode_ignores_unknown_keys_and_whitespace() {
    let env = base16_encode(r#" { "catalog" : "c" , "other" : true , "file" : "f" } "#).unwrap();
    let params = decode_request(&env).unwrap();
    assert_eq!(params.catalog.as_deref(), Some(b"c".as_slice()));
    assert_eq!(params.file.as_deref(), Some(b"f".as_slice()));
}

#[test]
fn envelope_decode_wrong_typed_fields_fall_back() {
    let env = base16_encode(r#"{"catalog":7,"file":"f","skip":"9","take":1.5}"#).unwrap();
    let params = decode_request(&env).unwrap();
    assert_eq!(params.catalog, None);
    assert_eq!(params.file.as_deref(), Some(b"f".as_slice()));
    assert_eq!(params.skip, None);
    assert_eq!(params.take, None);
}

#[test]
fn envelope_decode_reads_string_escapes() {
    let env = base16_encode(r#"{"file":"a\"b\\cA\n"}"#).unwrap();
    let params = decode_request(&env).unwrap();
    assert_eq!(params.file.as_deref(), Some(b"a\"b\\cA\n".as_slice()));
}

#[test]
fn envelope_decode_last_key_wins() {
    let env = base16_encode(r#"{"file":"first","file":"second"}"#).unwrap();
    let params = decode_request(&env).unwrap();
    assert_eq!(params.file.as_deref(), Some(b"second".as_slice()));
}

#[test]
fn envelope_decode_oversized_number_falls_back() {
    let env = base16_encode(r#"{"file":"f","skip":99999999999999999999999}"#).unwrap();
    let params = decode_request(&env).unwrap();
    assert_eq!(params.skip, None);
}
