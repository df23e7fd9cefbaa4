use filer::errors::FilerError;
use filer::manifest::{emit_file_list, parse_file_list, parse_manifest_bytes, FileEntry};

fn digest64(fill: u8) -> Vec<u8> {
    vec![fill; 64]
}

#[test]
fn manifest_round_trip() {
    let entries = vec![
        FileEntry { digest: digest64(b'a'), size: 0, path: b"a.bin".to_vec() },
        FileEntry { digest: digest64(b'0'), size: 18446744073709551615, path: b"dir/b c.txt".to_vec() },
    ];
    let text = emit_file_list(&entries);
    // Exactly one CRLF between lines, none at the end.
    assert_eq!(text.iter().filter(|b| **b == b'\r').count(), 1);
    assert!(!text.ends_with(b"\r\n"));
    let parsed = parse_manifest_bytes(&text).unwrap();
    assert_eq!(parsed.len(), 2);
    assert_eq!(parsed[0].digest, entries[0].digest);
    assert_eq!(parsed[0].size, 0);
    assert_eq!(parsed[0].path, b"a.bin".to_vec());
    assert_eq!(parsed[1].digest, entries[1].digest);
    assert_eq!(parsed[1].size, 18446744073709551615);
    assert_eq!(parsed[1].path, b"dir/b c.txt".to_vec());
}

#[test]
fn manifest_path_with_comma_breaks_three_field_shape() {
    // A comma in the path gives the line four fields, which parsing
    // rejects; emit_file_list can render it, but it will not parse.
    let entries = vec![FileEntry { digest: digest64(b'f'), size: 1, path: b"x,y".to_vec() }];
    let text = emit_file_list(&entries);
    assert_eq!(parse_manifest_bytes(&text), Err(FilerError::ManifestParse));
}

#[test]
fn manifest_blank_lines_dropped() {
    let mut text = Vec::new();
    text.extend_from_slice(b"\r\n");
    text.extend_from_slice(&digest64(b'1'));
    text.extend_from_slice(b",5,x.txt\r\n\r\n");
    text.extend_from_slice(&digest64(b'2'));
    text.extend_from_slice(b",7,y.txt\r\n");
    let parsed = parse_manifest_bytes(&text).unwrap();
    assert_eq!(parsed.len(), 2);
    assert_eq!(parsed[0].path, b"x.txt".to_vec());
    assert_eq!(parsed[1].size, 7);
}

#[test]
fn manifest_empty_input_is_empty() {
    assert_eq!(parse_manifest_bytes(&Vec::new()).unwrap().len(), 0);
}

#[test]
fn manifest_rejects_short_digest() {
    let text = b"abcd,5,x.txt".to_vec();
    assert_eq!(parse_manifest_bytes(&text), Err(FilerError::ManifestParse));
}

#[test]
fn manifest_rejects_bad_size() {
    let mut text = digest64(b'a');
    text.extend_from_slice(b",5x,y.txt");
    assert_eq!(parse_manifest_bytes(&text), Err(FilerError::ManifestParse));
}

#[test]
fn manifest_rejects_two_fields() {
    let mut text = digest64(b'a');
    text.extend_from_slice(b",12");
    assert_eq!(parse_manifest_bytes(&text), Err(FilerError::ManifestParse));
}

#[test]
fn manifest_rejects_oversized_size() {
    let mut text = digest64(b'a');
    text.extend_from_slice(b",18446744073709551616,x");
    assert_eq!(parse_manifest_bytes(&text), Err(FilerError::ManifestParse));
}

#[test]
fn manifest_parse_from_str() {
    let mut text = String::new();
    for _ in 0..64 {
        text.push('b');
    }
    text.push_str(",42,some/file.dat");
    let parsed = parse_file_list(&text).unwrap();
    assert_eq!(parsed.len(), 1);
    assert_eq!(parsed[0].size, 42);
    assert_eq!(parsed[0].path, b"some/file.dat".to_vec());
}
