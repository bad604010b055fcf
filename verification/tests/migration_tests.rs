//! Tests of port selection and migration history.

use echotrap::migration::{port_from_draw, MigrationHistory, PortSearch, SearchStep, MAX_PORT_ATTEMPTS};
use echotrap::detector::{PeerAddr, PeerIp};
use echotrap::error::MigrationError;

#[test]
fn draws_map_onto_the_two_safe_bands() {
    assert_eq!(port_from_draw(0), 1024);
    assert_eq!(port_from_draw(31743), 32767);
    assert_eq!(port_from_draw(31744), 61000);
    assert_eq!(port_from_draw(36279), 65535);
    assert_eq!(port_from_draw(36280), 1024);
    assert_eq!(port_from_draw(u32::MAX), 61311);
}

#[test]
fn search_skips_excluded_port_and_gives_up_after_sixteen_draws() {
    let mut s = PortSearch::new(1024);
    assert_eq!(s.step(0), SearchStep::Skip);
    assert_eq!(s.step(1), SearchStep::Probe(1025));
    for _ in 2..MAX_PORT_ATTEMPTS {
        assert_eq!(s.step(31744), SearchStep::Probe(61000));
    }
    assert_eq!(s.step(5), SearchStep::Exhausted);
    match s.give_up() {
        MigrationError::NoFreePort { attempts, exclude } => {
            assert_eq!(attempts, 16);
            assert_eq!(exclude, 1024);
        }
        _ => panic!("expected NoFreePort"),
    }
}

#[test]
fn next_candidate_never_returns_excluded_and_runs_out() {
    let mut s = PortSearch::new(9000);
    let mut got = 0;
    while let Some(p) = s.next_candidate() {
        assert_ne!(p, 9000);
        assert!(p >= 1024 && !(32768..=60999).contains(&p));
        got += 1;
    }
    assert!(got <= MAX_PORT_ATTEMPTS);
    assert!(s.next_candidate().is_none());
}

#[test]
fn history_keeps_the_last_256_events() {
    let mut h = MigrationHistory::new();
    assert_eq!(h.count(), 0);
    assert!(h.last().is_none());
    for i in 0..300u16 {
        h.record(i, i + 1, None);
    }
    assert_eq!(h.count(), 256);
    let last = h.last().unwrap();
    assert_eq!(last.from_port, 299);
    assert_eq!(last.to_port, 300);
    let trigger = PeerAddr { ip: PeerIp::V4(0x0a00_0001), port: 5555 };
    h.record(9000, 21629, Some(trigger));
    assert_eq!(h.count(), 256);
    assert_eq!(h.last().unwrap().trigger_ip, Some(trigger));
    let d = MigrationHistory::default();
    assert_eq!(d.count(), 0);
}
