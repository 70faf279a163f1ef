use std::collections::HashSet;
use zenoh_plugin_lcm::config::Config;
use zenoh_plugin_lcm::zenoh_to_lcm::{
    prune_sent_sequences, record_sent, subscription, Locality,
};

#[test]
fn test_prune_below_threshold() {
    let mut seqs: HashSet<u32> = (0..100).collect();
    prune_sent_sequences(&mut seqs, 99);
    // Below 10k threshold — no pruning.
    assert_eq!(seqs.len(), 100);
}

#[test]
fn test_prune_above_threshold() {
    let mut seqs: HashSet<u32> = (0..10_001).collect();
    prune_sent_sequences(&mut seqs, 10_000);
    // Should retain only seq >= 10_000 - 5_000 = 5_000.
    assert!(seqs.len() <= 5_001);
    assert!(seqs.contains(&10_000));
    assert!(seqs.contains(&5_000));
    assert!(!seqs.contains(&4_999));
}

#[test]
fn test_prune_saturating_sub_at_zero() {
    // If latest_seq < 5000, saturating_sub returns 0 — retain all.
    let mut seqs: HashSet<u32> = (0..10_001).collect();
    prune_sent_sequences(&mut seqs, 100);
    // cutoff = 100.saturating_sub(5000) = 0, so all are retained.
    assert_eq!(seqs.len(), 10_001);
}

#[test]
fn test_prune_with_gaps() {
    // Non-contiguous sequence numbers (e.g., only even numbers).
    let mut seqs: HashSet<u32> = (0..20_002).step_by(2).collect();
    assert_eq!(seqs.len(), 10_001);
    let latest = 20_000;
    prune_sent_sequences(&mut seqs, latest);
    // cutoff = 20_000 - 5_000 = 15_000. Only even numbers >= 15_000 retained.
    for &s in &seqs {
        assert!(s >= 15_000);
    }
    assert!(seqs.contains(&20_000));
    assert!(seqs.contains(&15_000));
    assert!(!seqs.contains(&14_998));
}

#[test]
fn test_prune_at_u32_max() {
    let mut seqs: HashSet<u32> = HashSet::new();
    // Insert 10_001 entries near u32::MAX.
    for i in 0..10_001u32 {
        seqs.insert(u32::MAX - i);
    }
    prune_sent_sequences(&mut seqs, u32::MAX);
    // cutoff = u32::MAX - 5000. Should retain ~5001 entries.
    assert!(seqs.len() <= 5_001);
    assert!(seqs.contains(&u32::MAX));
    assert!(seqs.contains(&(u32::MAX - 5_000)));
    assert!(!seqs.contains(&(u32::MAX - 5_001)));
}

#[test]
fn test_prune_exact_window() {
    let mut seqs: HashSet<u32> = (0..10_001).collect();
    prune_sent_sequences(&mut seqs, 10_000);
    assert_eq!(seqs, (5_000..10_001).collect::<HashSet<u32>>());
}

#[test]
fn test_prune_at_the_limit() {
    let mut seqs: HashSet<u32> = (0..10_000).collect();
    prune_sent_sequences(&mut seqs, 9_999);
    assert_eq!(seqs.len(), 10_000);
}

#[test]
fn test_record_sent() {
    let mut seqs = HashSet::new();
    record_sent(&mut seqs, 7);
    record_sent(&mut seqs, 7);
    assert_eq!(seqs, HashSet::from([7]));

    let mut seqs: HashSet<u32> = (0..10_000).collect();
    record_sent(&mut seqs, 10_000);
    assert_eq!(seqs, (5_000..10_001).collect::<HashSet<u32>>());
}

#[test]
fn test_subscription() {
    let config = Config { key_prefix: "robot1/lcm".to_string(), ..Config::default() };
    let subscription = subscription(&config);
    assert_eq!(subscription.key, "robot1/lcm/**");
    assert_eq!(subscription.origin, Locality::Remote);
}

#[test]
fn test_late_loopback_recognized() {
    for first in [20_000u32, u32::MAX - 2_000] {
        let mut seqs: HashSet<u32> = (0..10_000).collect();
        record_sent(&mut seqs, first);
        for later in 1..=5_000 {
            record_sent(&mut seqs, first.wrapping_add(later));
        }
        assert!(seqs.contains(&first));
    }
}
