use filer::errors::FilerError;
use filer::xcopy::{fine_path, rebase_path, xcopy_outcome, xcopy_transfer};

#[test]
fn ten_mebibyte_copy_is_byte_identical() {
    // XCopy of a 10 MiB file with 1 MiB parts: the copy is identical
    // and the size check passes.
    let content: Vec<u8> = (0..10 * 1024 * 1024u32).map(|i| (i * 7 % 256) as u8).collect();
    let (copy, size) = xcopy_transfer(&content, 1024 * 1024);
    assert_eq!(size, content.len() as u64);
    assert!(xcopy_outcome(content.len() as u64, size).is_ok());
    assert_eq!(copy, content);
}

#[test]
fn empty_file_copies() {
    let (copy, size) = xcopy_transfer(&Vec::new(), 1024);
    assert_eq!(size, 0);
    assert!(copy.is_empty());
}

#[test]
fn size_mismatch_is_integrity_error() {
    assert_eq!(xcopy_outcome(5, 4), Err(FilerError::IntegrityError));
    assert!(xcopy_outcome(5, 5).is_ok());
}

#[test]
fn paths_are_normalized() {
    assert_eq!(fine_path(&b"d:\\a\\b\\".to_vec()), b"d:/a/b".to_vec());
    assert_eq!(fine_path(&b"d:/a/b".to_vec()), b"d:/a/b".to_vec());
    assert_eq!(fine_path(&b"/".to_vec()), b"".to_vec());
    assert_eq!(fine_path(&b"".to_vec()), b"".to_vec());
}

#[test]
fn rebase_strips_root_and_separator() {
    let full = b"src/dir/file.txt".to_vec();
    assert_eq!(rebase_path(&full, 3), b"dir/file.txt".to_vec());
}
