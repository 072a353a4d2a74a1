use lionfs::fs::page_cache::PageCache;
use lionfs::ondisk::serialization::BLOCK_SIZE;

fn zero_fetch(_: u64) -> Vec<u8> {
    vec![0u8; BLOCK_SIZE]
}

#[test]
fn store_then_shadow_and_get() {
    let mut pc = PageCache::new(None);
    let data = vec![0xABu8; 3 * BLOCK_SIZE + 17];
    pc.store(7, 4096, &data, 99, zero_fetch);
    assert_eq!(pc.shadow(7), Some((4096 + data.len() as u64, 99)));
    let got = pc.get_pages(7, &[0, 1, 2, 3]);
    assert_eq!(got.len(), 3); // block 0 untouched
    assert!(got.iter().all(|(_, p)| p.iter().all(|&b| b == 0xAB)));
}

#[test]
fn partial_write_merges_not_overwrites() {
    let mut pc = PageCache::new(None);
    // Write a full block of 1s.
    pc.store(3, 0, &[1u8; BLOCK_SIZE], 1, zero_fetch);
    // Overwrite bytes 100..150 in the SAME block with 2s.
    pc.store(3, 100, &[2u8; 50], 2, zero_fetch);
    let pages = pc.get_pages(3, &[0]);
    assert_eq!(pages.len(), 1);
    let p = &pages[0].1;
    assert_eq!(p[99], 1);
    assert_eq!(p[100], 2);
    assert_eq!(p[149], 2);
    assert_eq!(p[150], 1);
}

#[test]
fn rmw_fetches_committed_content() {
    let mut pc = PageCache::new(None);
    // "Committed" block: all 7s.
    let committed = vec![7u8; BLOCK_SIZE];
    pc.store(9, 100, &[5u8; 3], 1, |b| {
        assert_eq!(b, 0);
        committed.clone()
    });
    let p = &pc.get_pages(9, &[0])[0].1;
    assert_eq!(p[99], 7);
    assert_eq!(p[100], 5);
    assert_eq!(p[102], 5);
    assert_eq!(p[103], 7);
}

#[test]
fn only_the_ends_of_a_write_are_fetched() {
    let mut pc = PageCache::new(None);
    pc.store(4, 100, &[5u8; 3 * BLOCK_SIZE], 1, |b| {
        assert!(b == 0 || b == 3, "block {b} is covered");
        vec![7u8; BLOCK_SIZE]
    });
    let pages = pc.get_pages(4, &[0, 1, 2, 3]);
    assert_eq!((pages[0].1[99], pages[0].1[100]), (7, 5));
    assert!(pages[1].1.iter().chain(pages[2].1.iter()).all(|&b| b == 5));
    assert_eq!((pages[3].1[99], pages[3].1[100]), (5, 7));
    // What is cached is not fetched again.
    pc.store(4, 0, &[1u8; 10], 2, |_| panic!("cached"));
}

#[test]
fn drain_produces_contiguous_runs_and_clears() {
    let mut pc = PageCache::new(None);
    pc.store(5, 0, &[9u8; BLOCK_SIZE], 1, zero_fetch);
    pc.store(5, 2 * BLOCK_SIZE as u64, &[8u8; BLOCK_SIZE], 1, zero_fetch);
    pc.store(5, BLOCK_SIZE as u64, &[7u8; BLOCK_SIZE], 1, zero_fetch);
    let runs = pc.drain_runs(5);
    // Three blocks written out of order but all contiguous.
    assert_eq!(runs.len(), 1);
    assert_eq!(runs[0].0, 0);
    assert_eq!(runs[0].1.len(), 3 * BLOCK_SIZE);
    assert!(pc.shadow(5).is_none());
    assert!(pc.drain_runs(5).is_empty());
}

#[test]
fn drop_ino_forgets_everything() {
    let mut pc = PageCache::new(None);
    pc.store(11, 0, &[1u8; BLOCK_SIZE], 1, zero_fetch);
    pc.drop_ino(11);
    assert!(pc.shadow(11).is_none());
    assert!(pc.get_pages(11, &[0]).is_empty());
    assert!(pc.dirty_inodes().is_empty());
}

#[test]
fn same_ino_gate_serializes_writers() {
    let mut pc = PageCache::new(None);
    assert!(!pc.gate(42));
    assert!(pc.try_enter_gate(42));
    // While one writer is inside, another cannot enter.
    assert!(pc.gate(42));
    assert!(!pc.try_enter_gate(42));
    assert!(pc.try_enter_gate(43)); // different inode: independent
    pc.leave_gate(42);
    assert!(pc.try_enter_gate(42));
}

#[test]
fn writeback_can_be_switched_off() {
    assert!(PageCache::new(None).is_enabled());
    assert!(PageCache::new(Some("1")).is_enabled());
    assert!(!PageCache::new(Some("0")).is_enabled());
}

#[test]
fn gaps_separate_runs() {
    let mut pc = PageCache::new(None);
    pc.store(5, 0, &[1u8; BLOCK_SIZE], 1, zero_fetch);
    pc.store(5, 3 * BLOCK_SIZE as u64, &[2u8; BLOCK_SIZE], 1, zero_fetch);
    assert_eq!(pc.total_dirty(), 2 * BLOCK_SIZE);
    assert_eq!(pc.largest_dirty(), Some(5));
    let (runs, eof) = pc.drain_runs_and_eof(5);
    assert_eq!(runs.len(), 2);
    assert_eq!(runs[0].0, 0);
    assert_eq!(runs[1].0, 3);
    assert_eq!(eof, Some(4 * BLOCK_SIZE as u64));
    assert_eq!(pc.total_dirty(), 0);
}
