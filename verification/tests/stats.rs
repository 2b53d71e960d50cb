use fantoch::stats::{AllStats, Protocol, Stats, StatsKey};

#[test]
fn stats_keep_their_mean() {
    let s = Stats::new(42);
    assert_eq!(s.mean(), 42);
    assert_eq!(s.mean, 42);
}

#[test]
fn mean_improvement_is_the_difference() {
    let slow = Stats::new(120);
    let fast = Stats::new(80);
    assert_eq!(slow.mean_improv(&fast), 40);
    assert_eq!(fast.mean_improv(&slow), -40);
    assert_eq!(fast.mean_improv(&fast), 0);
}

#[test]
fn debug_text_matches_debug_format() {
    for mean in [0u16, 7, 10, 99, 1234, u16::MAX] {
        let s = Stats::new(mean);
        assert_eq!(s.debug_text(), format!("{:?}", s));
    }
    assert_eq!(Stats::new(15).debug_text(), "Stats { mean: 15 }");
}

#[test]
fn all_stats_insert_get_contains() {
    let mut stats = AllStats::new();
    assert!(!stats.contains(StatsKey::Atlas, 1));
    stats.insert(StatsKey::Atlas, 1, Stats::new(10));
    stats.insert(StatsKey::FFPaxos, 1, Stats::new(20));
    stats.insert(StatsKey::EPaxos, 0, Stats::new(30));
    assert!(stats.contains(StatsKey::Atlas, 1));
    assert!(!stats.contains(StatsKey::Atlas, 2));
    assert!(!stats.contains(StatsKey::LFPaxos, 1));
    assert_eq!(stats.get(StatsKey::Atlas, 1), Stats::new(10));
    assert_eq!(stats.get(StatsKey::FFPaxos, 1), Stats::new(20));
    assert_eq!(stats.get(StatsKey::EPaxos, 0), Stats::new(30));
    assert_eq!(stats.entries().len(), 3);
}

#[test]
fn all_stats_insert_replaces() {
    let mut stats = AllStats::new();
    stats.insert(StatsKey::LFPaxos, 2, Stats::new(10));
    stats.insert(StatsKey::LFPaxos, 2, Stats::new(11));
    assert_eq!(stats.get(StatsKey::LFPaxos, 2), Stats::new(11));
    assert_eq!(stats.entries().len(), 1);
}

#[test]
fn quorum_sizes() {
    // FPaxos waits for f + 1 processes
    assert_eq!(Protocol::FPaxos.quorum_size(5, 1), 2);
    assert_eq!(Protocol::FPaxos.quorum_size(5, 2), 3);
    // Atlas waits for a minority plus f
    assert_eq!(Protocol::Atlas.quorum_size(3, 1), 2);
    assert_eq!(Protocol::Atlas.quorum_size(5, 1), 3);
    assert_eq!(Protocol::Atlas.quorum_size(5, 2), 4);
    assert_eq!(Protocol::Atlas.quorum_size(13, 2), 8);
    // EPaxos' fast quorum does not depend on f
    assert_eq!(Protocol::EPaxos.quorum_size(3, 0), 2);
    assert_eq!(Protocol::EPaxos.quorum_size(5, 0), 3);
    assert_eq!(Protocol::EPaxos.quorum_size(7, 0), 5);
    assert_eq!(Protocol::EPaxos.quorum_size(13, 0), 9);
}
