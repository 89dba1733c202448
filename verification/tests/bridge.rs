//! How a transfer is cut up for a device that stages its blocks.

use resident_fat::bridge::{batches, DEFAULT_STAGING_BLOCKS};

#[test]
fn a_long_transfer_becomes_few_full_calls() {
    let blocks = 3200;
    let calls = batches(100, blocks * 512, DEFAULT_STAGING_BLOCKS);
    assert_eq!(calls.len(), blocks.div_ceil(DEFAULT_STAGING_BLOCKS));
    assert_eq!(calls[0].start, 100);
    assert_eq!(calls[0].from, 0);
    assert!(calls.iter().all(|call| call.blocks == DEFAULT_STAGING_BLOCKS));
}

#[test]
fn the_calls_cover_the_transfer_once() {
    for capacity in [1usize, 8, 64, 512] {
        let calls = batches(7, 1000 * 512, capacity);
        assert_eq!(calls.len(), 1000usize.div_ceil(capacity));
        let mut next = 0;
        for call in &calls {
            assert_eq!(u64::from(call.start), 7 + next as u64);
            assert_eq!(call.from, next * 512);
            assert!(call.blocks <= capacity && call.blocks > 0);
            next += call.blocks;
        }
        assert_eq!(next, 1000);
    }
}

#[test]
fn an_empty_transfer_needs_no_call() {
    assert_eq!(batches(7, 0, 64).len(), 0);
}
