use filer::errors::FilerError;
use filer::manifest::FileEntry;
use filer::sync::{
    build_groups, exe_images, mark_fetched, select_downloads, should_write_manifest, source_for,
    target_path, verify_outcome,
};

fn entry(digest: &[u8], size: u64, path: &[u8]) -> FileEntry {
    FileEntry { digest: digest.to_vec(), size, path: path.to_vec() }
}

fn digest64(fill: u8) -> Vec<u8> {
    vec![fill; 64]
}

#[test]
fn update_skips_matching_entries() {
    // A file with identical digest and size locally is excluded under
    // update and included under download-all.
    let remote = vec![
        entry(&digest64(b'x'), 5, b"x.txt"),
        entry(&digest64(b'y'), 9, b"y.txt"),
    ];
    let local = vec![entry(&digest64(b'x'), 5, b"x.txt")];
    let update = select_downloads(&remote, &local, false);
    assert_eq!(update.len(), 1);
    assert_eq!(update[0].path, b"y.txt".to_vec());
    let all = select_downloads(&remote, &local, true);
    assert_eq!(all.len(), 2);
}

#[test]
fn update_refetches_on_digest_or_size_change() {
    let remote = vec![
        entry(&digest64(b'a'), 5, b"same-size.txt"),
        entry(&digest64(b'b'), 5, b"same-digest.txt"),
    ];
    let local = vec![
        entry(&digest64(b'z'), 5, b"same-size.txt"),
        entry(&digest64(b'b'), 6, b"same-digest.txt"),
    ];
    let update = select_downloads(&remote, &local, false);
    assert_eq!(update.len(), 2);
}

#[test]
fn excluded_suffixes_never_downloaded() {
    let remote = vec![
        entry(&digest64(b'a'), 1, b"conf/Filer.JSON"),
        entry(&digest64(b'b'), 2, b"bin/filer.exe.new"),
        entry(&digest64(b'c'), 3, b"bin/filer.exe"),
    ];
    let picked = select_downloads(&remote, &Vec::new(), true);
    assert_eq!(picked.len(), 1);
    assert_eq!(picked[0].path, b"bin/filer.exe".to_vec());
}

#[test]
fn local_reuse_after_first_success() {
    // Two remote entries share a digest: the first is fetched from the
    // network, and after it is marked, the second sources from the
    // first's path, locally.
    let d = blake3::hash(b"shared").to_hex().as_bytes().to_vec();
    let downloads = vec![entry(&d, 6, b"a.bin"), entry(&d, 6, b"b.bin")];
    let mut groups = build_groups(&downloads).unwrap();
    assert_eq!(groups.len(), 1);

    let (source, from_local) = source_for(&groups, &b"a.bin".to_vec(), &d);
    assert_eq!(source, b"a.bin".to_vec());
    assert!(!from_local);

    assert!(mark_fetched(&mut groups, &d));
    let (source, from_local) = source_for(&groups, &b"b.bin".to_vec(), &d);
    assert_eq!(source, b"a.bin".to_vec());
    assert!(from_local);
}

#[test]
fn unknown_digest_sources_from_network() {
    let groups = build_groups(&Vec::new()).unwrap();
    let (source, from_local) = source_for(&groups, &b"c.bin".to_vec(), &digest64(b'q'));
    assert_eq!(source, b"c.bin".to_vec());
    assert!(!from_local);
}

#[test]
fn group_size_disagreement_is_fatal() {
    let d = digest64(b'd');
    let downloads = vec![entry(&d, 6, b"a.bin"), entry(&d, 7, b"b.bin")];
    assert_eq!(build_groups(&downloads), Err(FilerError::ManifestParse));
}

#[test]
fn filer_exe_written_aside() {
    // The running image is never overwritten: filer.exe lands next to
    // itself with .new appended; everything else lands in place.
    let root = b"d:/tcsoftV6".to_vec();
    assert_eq!(
        target_path(&root, &b"filer.exe".to_vec()),
        b"d:/tcsoftV6/filer.exe.new".to_vec()
    );
    assert_eq!(
        target_path(&root, &b"bin/FILER.EXE".to_vec()),
        b"d:/tcsoftV6/bin/FILER.EXE.new".to_vec()
    );
    assert_eq!(target_path(&root, &b"other.exe".to_vec()), b"d:/tcsoftV6/other.exe".to_vec());
}

#[test]
fn integrity_gate_is_size_and_digest() {
    let e = entry(&digest64(b'a'), 4, b"f");
    assert!(verify_outcome(&e, &digest64(b'a'), 4).is_ok());
    assert_eq!(verify_outcome(&e, &digest64(b'a'), 5), Err(FilerError::IntegrityError));
    assert_eq!(verify_outcome(&e, &digest64(b'b'), 4), Err(FilerError::IntegrityError));
}

#[test]
fn manifest_written_only_after_a_success() {
    assert!(should_write_manifest(3, 2));
    assert!(should_write_manifest(1, 0));
    assert!(!should_write_manifest(3, 3));
    assert!(!should_write_manifest(0, 0));
}

#[test]
fn exe_images_collects_basenames_once() {
    let paths = vec![
        b"bin/tool.exe".to_vec(),
        b"doc/readme.txt".to_vec(),
        b"other/tool.exe".to_vec(),
        b"bin/filer.exe".to_vec(),
        b"bin/upper.EXE".to_vec(),
        b"second.exe".to_vec(),
    ];
    let images = exe_images(&paths);
    // tool.exe once, filer.exe excluded, .EXE is not the extension exe.
    assert_eq!(images, vec![b"tool.exe".to_vec(), b"second.exe".to_vec()]);
}
