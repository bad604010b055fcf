//! Tests of the sliding-window detector.

use echotrap::detector::{AttackTracker, PeerAddr, PeerIp, MAX_TRACKED_IPS};

const SEC: u64 = 1_000_000_000;

fn peer(a: u32) -> PeerAddr {
    PeerAddr { ip: PeerIp::V4(a), port: 40000 }
}

#[test]
fn burst_of_threshold_hits_is_suspicious() {
    let mut t = AttackTracker::new(3, 10);
    let ip = peer(0x7f00_0001);
    assert!(!t.record_and_check_at(ip, 0));
    assert!(!t.record_and_check_at(ip, SEC));
    assert!(t.record_and_check_at(ip, 2 * SEC));
    assert_eq!(t.tracked_ip_count(), 1);
}

#[test]
fn hits_outside_the_window_are_forgotten() {
    let mut t = AttackTracker::new(3, 10);
    let ip = peer(1);
    assert!(!t.record_and_check_at(ip, 0));
    assert!(!t.record_and_check_at(ip, SEC));
    // 20 s later both earlier hits are outside the 10 s window.
    assert!(!t.record_and_check_at(ip, 21 * SEC));
    assert!(!t.record_and_check_at(ip, 22 * SEC));
    assert!(t.record_and_check_at(ip, 23 * SEC));
}

#[test]
fn hit_exactly_at_window_edge_counts() {
    let mut t = AttackTracker::new(2, 10);
    let ip = peer(2);
    assert!(!t.record_and_check_at(ip, 0));
    assert!(t.record_and_check_at(ip, 10 * SEC));
    let mut u = AttackTracker::new(2, 10);
    assert!(!u.record_and_check_at(ip, 0));
    assert!(!u.record_and_check_at(ip, 10 * SEC + 1));
}

#[test]
fn ips_are_tracked_separately() {
    let mut t = AttackTracker::new(2, 10);
    assert!(!t.record_and_check_at(peer(1), 0));
    assert!(!t.record_and_check_at(peer(2), 0));
    let v6 = PeerAddr { ip: PeerIp::V6(1), port: 1 };
    assert!(!t.record_and_check_at(v6, 0));
    assert_eq!(t.tracked_ip_count(), 3);
    assert!(t.record_and_check_at(peer(1), 1));
}

#[test]
fn zero_threshold_is_always_suspicious() {
    let mut t = AttackTracker::new(0, 10);
    assert!(t.record_and_check_at(peer(9), 5));
}

#[test]
fn purge_drops_only_stale_ips() {
    let mut t = AttackTracker::new(5, 10);
    t.record_and_check_at(peer(1), 0);
    t.record_and_check_at(peer(2), 15 * SEC);
    t.purge_all_old_at(20 * SEC);
    assert_eq!(t.tracked_ip_count(), 1);
    // ip 1 starts over: one hit only.
    let mut u = AttackTracker::new(2, 10);
    u.record_and_check_at(peer(1), 0);
    u.purge_all_old_at(20 * SEC);
    assert_eq!(u.tracked_ip_count(), 0);
    assert!(!u.record_and_check_at(peer(1), 21 * SEC));
}

#[test]
fn cache_evicts_least_recently_seen_ip() {
    let mut t = AttackTracker::new(2, 100);
    for a in 0..(MAX_TRACKED_IPS as u32 + 1) {
        t.record_and_check_at(peer(a), 1);
    }
    assert_eq!(t.tracked_ip_count(), MAX_TRACKED_IPS);
    // ip 0 was evicted: its next hit is its first.
    assert!(!t.record_and_check_at(peer(0), 2));
    // ip 2 was kept: its next hit is its second.
    assert!(t.record_and_check_at(peer(2), 2));
}

#[test]
fn per_ip_history_is_capped_at_four_times_threshold() {
    let mut t = AttackTracker::new(1, 1000);
    for k in 0..10u64 {
        assert!(t.record_and_check_at(peer(7), k));
    }
    assert_eq!(t.tracked_ip_count(), 1);
}

#[test]
fn record_with_clock_runs() {
    let mut t = AttackTracker::new(2, 10);
    assert!(!t.record_and_check(peer(3)));
    assert!(t.record_and_check(peer(3)));
    t.purge_all_old();
    assert_eq!(t.tracked_ip_count(), 1);
}

#[test]
fn verdict_counts_recent_hits_of_the_same_ip_only() {
    const S: u64 = 1_000_000_000;
    let mut t = AttackTracker::new(3, 10);
    let a = peer(1);
    let b = peer(2);
    assert!(!t.record_and_check_at(a, 0));
    assert!(!t.record_and_check_at(b, S));
    assert!(!t.record_and_check_at(a, 5 * S));
    assert!(!t.record_and_check_at(b, 6 * S));
    // a: 0 s is out of the window ending at 12 s; 5 s and 12 s are in.
    assert!(!t.record_and_check_at(a, 12 * S));
    assert!(t.record_and_check_at(a, 13 * S));
    // b: 1 s and 6 s and 14 s; 1 s is out of the window ending at 14 s.
    assert!(!t.record_and_check_at(b, 14 * S));
}

#[test]
fn tracked_count_is_number_of_distinct_ips() {
    let mut t = AttackTracker::new(5, 60);
    assert_eq!(t.tracked_ip_count(), 0);
    for k in 0..20u32 {
        t.record_and_check_at(peer(k % 7), k as u64);
    }
    assert_eq!(t.tracked_ip_count(), 7);
}

#[test]
fn second_purge_changes_nothing() {
    const S: u64 = 1_000_000_000;
    let mut t = AttackTracker::new(3, 10);
    t.record_and_check_at(peer(1), 0);
    t.record_and_check_at(peer(2), 8 * S);
    t.record_and_check_at(peer(3), 12 * S);
    assert_eq!(t.tracked_ip_count(), 3);
    t.purge_all_old_at(15 * S);
    assert_eq!(t.tracked_ip_count(), 2);
    t.purge_all_old_at(15 * S);
    assert_eq!(t.tracked_ip_count(), 2);
    // ip 2 kept its timestamp: two more hits make three.
    assert!(!t.record_and_check_at(peer(2), 16 * S));
    assert!(t.record_and_check_at(peer(2), 17 * S));
}
