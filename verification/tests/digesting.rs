use filer::digest::digest_of_bytes;
use filer::errors::FilerError;
use filer::indexer::file_digest;
use filer::manifest::FileEntry;
use filer::parts::{calc_parts, read_range, PartData};
use filer::sync::process_file_parts;

fn reference_hex(data: &[u8]) -> Vec<u8> {
    // The blake3 crate, called directly, is the reference the library's
    // digest pipeline must agree with.
    blake3::hash(data).to_hex().as_bytes().to_vec()
}

#[test]
fn single_pass_digest_matches_blake3() {
    let data = b"abc".to_vec();
    assert_eq!(digest_of_bytes(&data), reference_hex(b"abc"));
    assert_eq!(digest_of_bytes(&Vec::new()), reference_hex(b""));
}

#[test]
fn chunked_digest_equals_single_pass() {
    // A file larger than one part: the indexer's chunked digest equals
    // the digest of the concatenated bytes.
    let content: Vec<u8> = (0..1048577u32).map(|i| (i * 31 % 256) as u8).collect();
    let (digest, size) = file_digest(&content, 65536, 16);
    assert_eq!(size, content.len() as u64);
    assert_eq!(digest, reference_hex(&content));
}

#[test]
fn small_file_digest() {
    let content = b"abc".to_vec();
    let (digest, size) = file_digest(&content, 102400, 16);
    assert_eq!(size, 3);
    assert_eq!(digest, reference_hex(b"abc"));
}

#[test]
fn verified_transfer_passes_gate() {
    let content: Vec<u8> = (0..300000u32).map(|i| (i % 241) as u8).collect();
    let entry = FileEntry {
        digest: reference_hex(&content),
        size: content.len() as u64,
        path: b"a.bin".to_vec(),
    };
    let (parts, eff) = calc_parts(entry.size, 65536, 128);
    let mut fetched: Vec<PartData> = Vec::new();
    for i in 0..parts {
        fetched.push(read_range(&content, i * eff, eff).unwrap());
    }
    let (digest, size) = process_file_parts(&entry, &fetched).unwrap();
    assert_eq!(size, entry.size);
    assert_eq!(digest, entry.digest);
}

#[test]
fn one_byte_flip_fails_gate() {
    let content: Vec<u8> = (0..200000u32).map(|i| (i % 199) as u8).collect();
    let entry = FileEntry {
        digest: reference_hex(&content),
        size: content.len() as u64,
        path: b"a.bin".to_vec(),
    };
    let (parts, eff) = calc_parts(entry.size, 65536, 128);
    for victim in 0..parts {
        let mut fetched: Vec<PartData> = Vec::new();
        for i in 0..parts {
            fetched.push(read_range(&content, i * eff, eff).unwrap());
        }
        // Flip one byte in transit, in any chunk: the digest no longer
        // matches and the file is not counted as downloaded.
        fetched[victim as usize].bytes[0] ^= 1;
        assert_eq!(process_file_parts(&entry, &fetched), Err(FilerError::IntegrityError));
    }
}

#[test]
fn short_transfer_fails_gate() {
    let content = b"0123456789".to_vec();
    let entry = FileEntry {
        digest: reference_hex(&content),
        size: 11,
        path: b"b.bin".to_vec(),
    };
    let fetched = vec![filer::parts::read_full(&content)];
    assert_eq!(process_file_parts(&entry, &fetched), Err(FilerError::IntegrityError));
}
