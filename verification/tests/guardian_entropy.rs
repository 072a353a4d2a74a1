use lionfs::guardian::entropy::{
    entropy_bits_per_byte, ewma, is_lure_path, log2_parts, EntropyWatcher,
};

#[test]
fn entropy_of_uniform_noise_is_maximal() {
    // A full 256-symbol cycle: exactly 8 bits/byte by construction.
    let data: Vec<u8> = (0..=255u8).cycle().take(4096).collect();
    let bits = entropy_bits_per_byte(&data);
    assert_eq!(bits, 8 << 32);
}

#[test]
fn entropy_of_constant_is_zero() {
    assert_eq!(entropy_bits_per_byte(b"aaaaaaaaaa"), 0);
    assert_eq!(entropy_bits_per_byte(&[]), 0);
    assert_eq!(entropy_bits_per_byte(&[7]), 0);
}

#[test]
fn entropy_of_two_symbols_is_one_bit() {
    let data = vec![0u8, 1].repeat(512);
    assert_eq!(entropy_bits_per_byte(&data), 1 << 32);
}

#[test]
fn entropy_of_four_symbols_is_two_bits() {
    let data: Vec<u8> = [0u8, 1, 2, 3].iter().cycle().copied().take(4096).collect();
    assert_eq!(entropy_bits_per_byte(&data), 2 << 32);
}

#[test]
fn entropy_is_monotone_in_randomization() {
    let low = vec![b'a'; 1024];
    let mid: Vec<u8> = (0..1024u32).map(|i| (i % 4) as u8).collect();
    let high: Vec<u8> = (0..1024u32)
        .map(|i| (i.wrapping_mul(2_654_435_761) >> 24) as u8)
        .collect();
    let e_low = entropy_bits_per_byte(&low);
    let e_mid = entropy_bits_per_byte(&mid);
    let e_high = entropy_bits_per_byte(&high);
    assert!(e_low < e_mid);
    assert!(e_mid < e_high);
}

#[test]
fn entropy_of_english_text_is_midrange() {
    let text = b"the quick brown fox jumps over the lazy dog. ".repeat(64);
    let bits = entropy_bits_per_byte(&text);
    // English text sits around 3.5-4.5 bits/byte; the 16-step log2
    // quantization adds at most ~0.09.
    assert!(bits > (3 << 32), "bits {bits}");
    assert!(bits < (5 << 32), "bits {bits}");
}

#[test]
fn normal_workload_stays_calm() {
    // Text-ish writes, mostly new files, no lure extensions.
    let mut w = EntropyWatcher::new();
    let text = b"the quick brown fox jumps over the lazy dog. ".repeat(20);
    for _ in 0..10 {
        w.observe(100, 10, 0, &text);
    }
    let s = w.suspicion();
    assert!(!s.freeze_recommended);
    // Entropy ~4/7.5 * 0.5 = ~0.27, rewrite 0.1*0.3 = 0.03: ~30%.
    assert!(s.score_bps < 4_000, "score {}", s.score_bps);
}

#[test]
fn ransomware_pattern_freezes() {
    let mut w = EntropyWatcher::new();
    let ciphertext: Vec<u8> = (0..4096u32)
        .map(|i| (i.wrapping_mul(0x9E37_79B1) >> 24) as u8)
        .collect();
    for _ in 0..12 {
        // All rewrites, all lure paths, all high-entropy payload.
        w.observe(100, 100, 100, &ciphertext);
    }
    let s = w.suspicion();
    assert!(s.freeze_recommended, "score {}", s.score_bps);
    assert!(s.score_bps >= 8_000, "score {}", s.score_bps);
}

#[test]
fn compression_workload_does_not_freeze() {
    // Compressed output is high-entropy BUT: new files, no
    // rewrites, no lure extensions -> rewrite and lure stay 0, so
    // the score caps at the entropy weight alone (50%).
    let mut w = EntropyWatcher::new();
    let compressed: Vec<u8> = (0..4096u32)
        .map(|i| (i.wrapping_mul(0x85EB_CA6B) >> 24) as u8)
        .collect();
    for _ in 0..12 {
        w.observe(100, 0, 0, &compressed);
    }
    let s = w.suspicion();
    assert!(!s.freeze_recommended);
    assert!(s.score_bps <= 5_000, "score {}", s.score_bps);
}

#[test]
fn lure_paths_detected_case_insensitively() {
    assert!(is_lure_path("report.Q4.DOCX"));
    assert!(is_lure_path("/home/lion/photo.JPG"));
    assert!(is_lure_path("backup.db"));
    assert!(!is_lure_path("mydocx")); // no dot separator
    assert!(!is_lure_path("archive.tar.gz"));
    assert!(!is_lure_path("kernel.rs"));
}

#[test]
fn ewma_converges() {
    let mut v = 0u64;
    let sample = 100u64 << 32;
    for _ in 0..60 {
        v = ewma(v, sample, (1 << 32) / 4);
    }
    // 0.75^60 ~ 1.8e-8: the residual gap is thousands, not millions.
    assert!((v as i64 - (100i64 << 32)).abs() < 1 << 20);
}

#[test]
fn log2_parts_exactly_right_for_powers_of_two() {
    for k in 0..40u64 {
        let (f, fr) = log2_parts(1 << k);
        assert_eq!(f, k);
        assert_eq!(fr, 0);
    }
    let (f, fr) = log2_parts(3); // 1.58496 -> floor 1
    assert_eq!(f, 1);
    assert!(fr > 0 && fr < 1 << 16);
}

#[test]
fn reexports_compose() {
    let mut w = lionfs::guardian::EntropyWatcher::new();
    w.observe(10, 1, 0, b"hello world hello world");
    let _bits = lionfs::guardian::entropy_bits_per_byte(b"aaaa");
    let _ = lionfs::guardian::Agent::new(lionfs::guardian::AgentConfig::default());
}

#[test]
fn windows_move_the_averages_by_a_quarter() {
    let mut w = EntropyWatcher::new();
    w.observe(0, 5, 5, b"xy");
    assert_eq!(w.evidence(), (0, 0, 0));
    w.observe(4, 2, 1, b"xy");
    assert_eq!(w.evidence(), (1 << 30, 1 << 29, 1 << 28));
    assert_eq!(ewma(100, 200, 1 << 31), 150);
}

#[test]
fn large_windows_count_in_full() {
    let mut w = EntropyWatcher::new();
    w.observe(1 << 32, 1 << 32, 1 << 33, b"");
    // A quarter of one, and of two.
    assert_eq!(w.evidence(), (0, 1 << 30, 1 << 31));
    for _ in 0..40 {
        w.observe(1, u64::MAX, u64::MAX, b"");
    }
    assert_eq!(w.suspicion().score_bps, 10_000);
}
