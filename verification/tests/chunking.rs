use filer::errors::FilerError;
use filer::parts::{calc_parts, read_full, read_range, store_at, PartData};
use filer::schedule::plan_batches;

#[test]
fn calc_parts_no_doubling() {
    // 10 bytes in parts of 3: four parts cover it.
    assert_eq!(calc_parts(10, 3, 128), (4, 3));
}

#[test]
fn calc_parts_doubles_until_cap() {
    // 1000 one-byte parts exceed a cap of 2; doubling stops at 512.
    assert_eq!(calc_parts(1000, 1, 2), (2, 512));
}

#[test]
fn calc_parts_invariant_spot_checks() {
    for (size, part, cap) in [(0u64, 7u64, 4u64), (1, 7, 4), (1048577, 65536, 128), (5, 5, 1)] {
        let (parts, eff) = calc_parts(size, part, cap);
        assert!(parts <= cap);
        assert!(parts.checked_mul(eff).unwrap() >= size);
        // The effective size is the original doubled some number of times.
        let mut p = part;
        while p < eff {
            p *= 2;
        }
        assert_eq!(p, eff);
    }
}

#[test]
fn read_range_exact_and_clamped() {
    let content: Vec<u8> = (0u8..=9).collect();
    let part = read_range(&content, 2, 3).unwrap();
    assert_eq!((part.skip, part.take), (2, 3));
    assert_eq!(part.bytes, vec![2, 3, 4]);
    // Past the end the read is clamped to what remains.
    let tail = read_range(&content, 8, 5).unwrap();
    assert_eq!((tail.skip, tail.take), (8, 2));
    assert_eq!(tail.bytes, vec![8, 9]);
    // Reading at the end returns nothing, not an error.
    let empty = read_range(&content, 10, 1).unwrap();
    assert_eq!((empty.take, empty.bytes.len()), (0, 0));
}

#[test]
fn read_range_out_of_range() {
    let content = vec![1u8, 2, 3];
    assert!(matches!(read_range(&content, 4, 1), Err(FilerError::OutOfRange)));
}

#[test]
fn read_full_returns_everything() {
    let content = b"hello".to_vec();
    let part = read_full(&content);
    assert_eq!((part.skip, part.take), (0, 5));
    assert_eq!(part.bytes, content);
}

#[test]
fn store_at_overwrites_pads_and_extends() {
    let mut target = b"abcdef".to_vec();
    store_at(&mut target, 2, &b"XY".to_vec());
    assert_eq!(target, b"abXYef".to_vec());
    store_at(&mut target, 5, &b"ZW".to_vec());
    assert_eq!(target, b"abXYeZW".to_vec());
    let mut short = b"ab".to_vec();
    store_at(&mut short, 4, &b"Q".to_vec());
    assert_eq!(short, b"ab\0\0Q".to_vec());
}

#[test]
fn parts_reassemble_file() {
    let content: Vec<u8> = (0..1000u32).map(|i| (i % 251) as u8).collect();
    let (parts, eff) = calc_parts(content.len() as u64, 64, 128);
    let mut target: Vec<u8> = Vec::new();
    for i in 0..parts {
        let part: PartData = read_range(&content, i * eff, eff).unwrap();
        store_at(&mut target, part.skip, &part.bytes);
    }
    assert_eq!(target, content);
}

#[test]
fn batches_fill_until_budget() {
    // Admission checks the budget before each file, so a batch may
    // overshoot by its last file's parts.
    let ends = plan_batches(&vec![2, 3, 1], 4);
    assert_eq!(ends, vec![2, 3]);
    // One huge file takes a whole batch alone.
    let ends = plan_batches(&vec![128, 1, 1], 4);
    assert_eq!(ends, vec![1, 3]);
    // An exhausted list closes the batch.
    let ends = plan_batches(&vec![1, 1], 100);
    assert_eq!(ends, vec![2]);
    let ends = plan_batches(&Vec::new(), 8);
    assert_eq!(ends, Vec::<usize>::new());
}
