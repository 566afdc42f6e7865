use carsync::compress::transfer_with_compression;

#[test]
fn compressed_transfer_delivers_the_source_bytes() {
    let source: Vec<u8> = b"meow ".repeat(10_000);
    let copy = transfer_with_compression(&source, 3).unwrap();
    assert_eq!(copy.contents, source);
}

#[test]
fn compressed_transfer_counts_the_frame_size() {
    let source: Vec<u8> = b"purr purr purr ".repeat(5_000);
    let frame = zstd::stream::encode_all(&source[..], 3).unwrap();
    let copy = transfer_with_compression(&source, 3).unwrap();
    assert_eq!(copy.wire_bytes, frame.len() as u64);
    assert!(copy.wire_bytes < source.len() as u64);
}

#[test]
fn compressed_transfer_of_empty_file() {
    let copy = transfer_with_compression(&[], 3).unwrap();
    assert!(copy.contents.is_empty());
    let frame = zstd::stream::encode_all(&[][..], 3).unwrap();
    assert_eq!(copy.wire_bytes, frame.len() as u64);
}

#[test]
fn compressed_transfer_works_across_levels() {
    let source: Vec<u8> = (0..50_000u32).map(|i| (i % 7) as u8).collect();
    for level in [-7, -1, 0, 1, 3, 8, 19, 22] {
        let copy = transfer_with_compression(&source, level).unwrap();
        assert_eq!(copy.contents, source);
        let frame = zstd::stream::encode_all(&source[..], level).unwrap();
        assert_eq!(copy.wire_bytes, frame.len() as u64);
    }
}

#[test]
fn compressed_transfer_of_random_like_data_is_lossless() {
    let mut x: u32 = 12345;
    let source: Vec<u8> = (0..100_000)
        .map(|_| {
            x = x.wrapping_mul(1103515245).wrapping_add(12345);
            (x >> 16) as u8
        })
        .collect();
    let copy = transfer_with_compression(&source, 5).unwrap();
    assert_eq!(copy.contents, source);
}
