use lionfs::fs::compression::{
    set_zstd_level, zstd_compress_at_level, zstd_decompress, zstd_level, CompressionAlgorithm,
    CompressionManager, CompressionSettings, Deflate, Lz4, Zstd,
};

fn roundtrip<A: CompressionAlgorithm>(algo: &A, data: &[u8]) {
    let compressed = algo.compress(data);
    let back = algo.decompress(&compressed).unwrap();
    assert_eq!(back, data);
}

#[test]
fn lz4_roundtrip() {
    roundtrip(&Lz4, b"repeat repeat repeat repeat repeat repeat repeat");
}

#[test]
fn zstd_roundtrip() {
    roundtrip(&Zstd, b"repeat repeat repeat repeat repeat repeat repeat");
}

#[test]
fn deflate_roundtrip() {
    roundtrip(
        &Deflate,
        b"repeat repeat repeat repeat repeat repeat repeat",
    );
}

#[test]
fn repetitive_data_actually_shrinks() {
    let data = "repeating data ".repeat(64);
    let (algo_id, compressed) = CompressionManager::adaptive_compress(data.as_bytes(), 2);
    assert_ne!(algo_id, 0, "highly repetitive data should compress");
    assert!(compressed.len() < data.len());
    let algo = CompressionManager::get_algorithm(algo_id).unwrap();
    assert_eq!(algo.decompress(&compressed).unwrap(), data.as_bytes());
}

#[test]
fn incompressible_random_data_falls_back_to_uncompressed() {
    let mut x: u32 = 0x12345678;
    let data: Vec<u8> = (0..256)
        .map(|_| {
            x ^= x << 13;
            x ^= x >> 17;
            x ^= x << 5;
            (x & 0xFF) as u8
        })
        .collect();
    let (algo_id, out) = CompressionManager::adaptive_compress(&data, 2);
    assert_eq!(algo_id, 0);
    assert_eq!(out, data);
}

#[test]
fn damaged_input_is_an_error() {
    assert!(Lz4.decompress(&[9, 0, 0, 0, 0xF0]).is_err());
    assert!(Lz4.decompress(&[1, 2]).is_err());
    assert!(Zstd.decompress(b"not a frame").is_err());
    assert!(Deflate.decompress(&[0xFF, 0xFF, 0xFF]).is_err());
    assert!(zstd_decompress(b"nor this").is_err());
}

#[test]
fn algorithms_have_their_numbers() {
    for id in 1..=3u8 {
        assert_eq!(CompressionManager::get_algorithm(id).unwrap().id(), id);
    }
    assert!(CompressionManager::get_algorithm(0).is_none());
    assert!(CompressionManager::get_algorithm(4).is_none());
    let data = vec![5u8; 1000];
    let (id, packed) = CompressionManager::adaptive_compress(&data, 77);
    assert_eq!(id, 1);
    assert_eq!(Lz4.decompress(&packed).unwrap(), data);
}

#[test]
fn only_what_is_smaller_is_kept() {
    assert_eq!(CompressionManager::keep_smaller(2, vec![1], &[7, 8]), (2, vec![1]));
    assert_eq!(CompressionManager::keep_smaller(2, vec![1, 2], &[7, 8]), (0, vec![7, 8]));
}

#[test]
fn levels_are_clamped_and_all_read_back() {
    let mut settings = CompressionSettings::default();
    assert_eq!(zstd_level(&settings), 3);
    set_zstd_level(&mut settings, 99);
    assert_eq!(zstd_level(&settings), 22);
    set_zstd_level(&mut settings, -4);
    assert_eq!(zstd_level(&settings), 1);
    let data = vec![3u8; 5000];
    for level in [-1, 1, 9, 40] {
        let packed = zstd_compress_at_level(&data, level);
        assert!(packed.len() < data.len());
        assert_eq!(zstd_decompress(&packed).unwrap(), data);
    }
}
