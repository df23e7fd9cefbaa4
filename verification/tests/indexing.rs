use filer::indexer::{build_index, file_digest, repeated_groups, total_size};
use filer::manifest::{emit_file_list, parse_manifest_bytes, FileEntry};
use filer::sync::build_groups;

#[test]
fn repeat_report_groups_identical_files() {
    // Two files with the same three bytes: one group of two members
    // whose digest is the BLAKE3 of those bytes.
    let (digest_a, size_a) = file_digest(&b"abc".to_vec(), 102400, 16);
    let (digest_b, size_b) = file_digest(&b"abc".to_vec(), 102400, 16);
    assert_eq!(digest_a, digest_b);
    let entries = vec![
        FileEntry { digest: digest_a.clone(), size: size_a, path: b"foo/a".to_vec() },
        FileEntry { digest: digest_b, size: size_b, path: b"foo/b".to_vec() },
    ];
    let groups = build_groups(&entries).unwrap();
    let repeats = repeated_groups(&groups);
    assert_eq!(repeats.len(), 1);
    assert_eq!(repeats[0].paths, vec![b"foo/a".to_vec(), b"foo/b".to_vec()]);
    assert_eq!(repeats[0].digest, blake3::hash(b"abc").to_hex().as_bytes().to_vec());
}

#[test]
fn index_excludes_list_file_and_rebases() {
    let digest = vec![b'a'; 64];
    let results = vec![
        FileEntry { digest: digest.clone(), size: 3, path: b"Root/foo/a".to_vec() },
        FileEntry { digest: digest.clone(), size: 9, path: b"root/Filelist.txt".to_vec() },
        FileEntry { digest: digest.clone(), size: 5, path: b"Root/b".to_vec() },
    ];
    let entries = build_index(&results, &b"Root".to_vec(), &b"filelist.txt".to_vec());
    assert_eq!(entries.len(), 2);
    assert_eq!(entries[0].path, b"foo/a".to_vec());
    assert_eq!(entries[1].path, b"b".to_vec());
}

#[test]
fn indexed_manifest_parses_back() {
    let content = b"some file bytes".to_vec();
    let (digest, size) = file_digest(&content, 102400, 16);
    let results = vec![FileEntry { digest, size, path: b"root/data/f.bin".to_vec() }];
    let entries = build_index(&results, &b"root".to_vec(), &b"filelist.txt".to_vec());
    let text = emit_file_list(&entries);
    let parsed = parse_manifest_bytes(&text).unwrap();
    assert_eq!(parsed.len(), 1);
    assert_eq!(parsed[0].path, b"data/f.bin".to_vec());
    assert_eq!(parsed[0].size, content.len() as u64);
}

#[test]
fn totals_sum_sizes() {
    let digest = vec![b'0'; 64];
    let entries = vec![
        FileEntry { digest: digest.clone(), size: 10, path: b"a".to_vec() },
        FileEntry { digest: digest.clone(), size: 32, path: b"b".to_vec() },
    ];
    assert_eq!(total_size(&entries), Some(42));
    let big = vec![
        FileEntry { digest: digest.clone(), size: u64::MAX, path: b"a".to_vec() },
        FileEntry { digest, size: 1, path: b"b".to_vec() },
    ];
    assert_eq!(total_size(&big), None);
}
