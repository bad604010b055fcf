//! Tests of metrics, listener decisions, redirect commands and text helpers.

use echotrap::detector::{AttackTracker, PeerAddr, PeerIp};
use echotrap::metrics::Metrics;
use echotrap::network::{complete_migration, drain_step, on_connection, switch_if_bound, DrainStep, MigrationGate};
use echotrap::redirect::{
    add_chain_args, add_rule_args, add_table_args, flush_table_args, nft_command_ok, nft_failure_is_benign,
    redirect_action, RedirectAction,
};
use echotrap::text::{decimal_string, is_whitespace, trim_chars};

const SEC: u64 = 1_000_000_000;

#[test]
fn counters_count() {
    let mut m = Metrics::new();
    m.inc_connections();
    m.inc_connections();
    m.inc_attacks();
    m.inc_migrations();
    m.set_port(21629);
    let r = m.report(412);
    assert_eq!(r.connections_total, 2);
    assert_eq!(r.attacks_detected, 1);
    assert_eq!(r.port_migrations, 1);
    assert_eq!(r.current_port, 21629);
    assert_eq!(r.uptime_secs, 412);
    let s = m.status(7);
    assert_eq!(s.current_port, 21629);
    assert_eq!(s.uptime_secs, 7);
    assert_eq!(m.uptime_at(m.start_secs + 30), 30);
    assert_eq!(m.uptime_at(0), 0);
    let _ = m.uptime_secs();
    m.connection_count = usize::MAX;
    m.inc_connections();
    assert_eq!(m.connection_count, 0);
}

#[test]
fn prometheus_text_is_exact() {
    let mut m = Metrics::new();
    m.inc_connections();
    m.set_port(9000);
    let t = m.prometheus_text(5, "0.2.0");
    let want = "# HELP echotrap_connections_total Total TCP connections accepted\n\
# TYPE echotrap_connections_total counter\n\
echotrap_connections_total 1\n\
\n\
# HELP echotrap_attacks_detected_total Scan/attack events detected\n\
# TYPE echotrap_attacks_detected_total counter\n\
echotrap_attacks_detected_total 0\n\
\n\
# HELP echotrap_port_migrations_total Port migrations triggered\n\
# TYPE echotrap_port_migrations_total counter\n\
echotrap_port_migrations_total 0\n\
\n\
# HELP echotrap_current_port Currently active honeypot port\n\
# TYPE echotrap_current_port gauge\n\
echotrap_current_port 9000\n\
\n\
# HELP echotrap_uptime_seconds Process uptime in seconds\n\
# TYPE echotrap_uptime_seconds counter\n\
echotrap_uptime_seconds 5\n\
\n\
# HELP echotrap_info Static build information\n\
# TYPE echotrap_info gauge\n\
echotrap_info{version=\"0.2.0\"} 1\n";
    assert_eq!(t, want);
}

#[test]
fn migrations_respect_the_cooldown() {
    let mut g = MigrationGate::new(9000);
    assert!(!g.cooldown_active(0));
    let mut m = Metrics::new();
    complete_migration(&mut g, &mut m, 21629, 10 * SEC);
    assert_eq!(g.current_port(), 21629);
    assert_eq!(m.current_port, 21629);
    assert_eq!(m.port_migrations, 1);
    assert!(g.cooldown_active(10 * SEC));
    assert!(g.cooldown_active(15 * SEC - 1));
    assert!(!g.cooldown_active(15 * SEC));
    assert!(g.cooldown_active(SEC));
}

#[test]
fn connections_feed_detector_and_metrics() {
    let mut t = AttackTracker::new(3, 10);
    let mut m = Metrics::new();
    let peer = PeerAddr { ip: PeerIp::V4(0xcb00_712c), port: 5000 };
    assert!(!on_connection(&mut t, &mut m, peer, 0));
    assert!(!on_connection(&mut t, &mut m, peer, SEC));
    assert!(on_connection(&mut t, &mut m, peer, 2 * SEC));
    assert_eq!(m.connection_count, 3);
    assert_eq!(m.attack_count, 1);
}

#[test]
fn drain_decisions() {
    assert_eq!(drain_step(0, 3), DrainStep::TimedOut(3));
    assert_eq!(drain_step(0, 0), DrainStep::TimedOut(0));
    assert_eq!(drain_step(10, 0), DrainStep::Drained);
    assert_eq!(drain_step(10, 2), DrainStep::Wait);
}

#[test]
fn nft_arguments() {
    assert_eq!(add_table_args(), vec!["add", "table", "ip", "echotrap"]);
    assert_eq!(
        add_chain_args(),
        vec!["add", "chain", "ip", "echotrap", "prerouting", "{ type nat hook prerouting priority dstnat ; }"]
    );
    assert_eq!(
        add_rule_args(9000, 21629),
        vec!["add", "rule", "ip", "echotrap", "prerouting", "tcp", "dport", "9000", "redirect", "to", ":21629"]
    );
    assert_eq!(flush_table_args(), vec!["flush", "table", "ip", "echotrap"]);
}

#[test]
fn nft_benign_failures() {
    assert!(nft_failure_is_benign("Error: Could not process rule: File exists"));
    assert!(nft_failure_is_benign("table already exists"));
    assert!(!nft_failure_is_benign("Error: Operation not permitted"));
    assert!(!nft_failure_is_benign(""));
    assert!(nft_failure_is_benign("File exists"));
}

#[test]
fn decimal_and_trim() {
    assert_eq!(decimal_string(0), "0");
    assert_eq!(decimal_string(9), "9");
    assert_eq!(decimal_string(10), "10");
    assert_eq!(decimal_string(65535), "65535");
    assert_eq!(decimal_string(u64::MAX), "18446744073709551615");
    let v: Vec<char> = " \t a b \r\n".chars().collect();
    let t: String = trim_chars(&v).into_iter().collect();
    assert_eq!(t, "a b");
    let w: Vec<char> = "\u{a0}x\u{3000}".chars().collect();
    let u: String = trim_chars(&w).into_iter().collect();
    assert_eq!(u, "x");
}

#[test]
fn white_space_is_what_std_says() {
    for u in 0u32..=0x10FFFF {
        if let Some(c) = char::from_u32(u) {
            assert_eq!(is_whitespace(c), c.is_whitespace(), "U+{:04X}", u);
        }
    }
}

#[test]
fn counter_adds_each_increment_and_wraps() {
    let mut m = Metrics::new();
    m.connection_count = usize::MAX - 1;
    for _ in 0..3 {
        m.inc_connections();
    }
    assert_eq!(m.connection_count, 1);
    assert_eq!(m.attack_count, 0);
    assert_eq!(m.port_migrations, 0);
}

#[test]
fn migration_run_counts_only_spaced_migrations() {
    let mut g = MigrationGate::new(9000);
    let mut m = Metrics::new();
    let requests = [(0, 1111u16), (2 * SEC, 2222), (5 * SEC, 3333), (9 * SEC, 4444), (10 * SEC, 5555)];
    for (now, port) in requests {
        if !g.cooldown_active(now) {
            complete_migration(&mut g, &mut m, port, now);
        }
    }
    assert_eq!(m.port_migrations, 3);
    assert_eq!(g.current_port(), 5555);
    assert_eq!(m.current_port, 5555);
}

#[test]
fn switch_happens_only_once_bound() {
    let mut g = MigrationGate::new(9000);
    let mut m = Metrics::new();
    m.set_port(9000);
    assert!(!switch_if_bound(&mut g, &mut m, 21629, false, SEC));
    assert_eq!(g.current_port(), 9000);
    assert_eq!(m.current_port, 9000);
    assert_eq!(m.port_migrations, 0);
    assert!(!g.cooldown_active(SEC));
    assert!(switch_if_bound(&mut g, &mut m, 21629, true, 2 * SEC));
    assert_eq!(g.current_port(), 21629);
    assert_eq!(m.current_port, 21629);
    assert_eq!(m.port_migrations, 1);
    assert!(g.cooldown_active(3 * SEC));
}

#[test]
fn redirect_steps_in_order() {
    let args = |a: RedirectAction| match a {
        RedirectAction::Command(v) => v,
        other => panic!("expected a command, got {other:?}"),
    };
    assert_eq!(args(redirect_action(9000, 21629, true, 0, false)), add_table_args());
    assert_eq!(args(redirect_action(9000, 21629, true, 1, false)), add_chain_args());
    assert_eq!(args(redirect_action(9000, 21629, true, 2, false)), add_rule_args(9000, 21629));
    assert!(matches!(redirect_action(9000, 21629, true, 3, false), RedirectAction::Active));
    assert!(matches!(redirect_action(9000, 21629, true, 1, true), RedirectAction::Decoy));
    assert!(matches!(redirect_action(9000, 21629, false, 0, false), RedirectAction::Decoy));
    assert!(nft_command_ok(true, ""));
    assert!(nft_command_ok(false, "Error: File exists"));
    assert!(!nft_command_ok(false, "Error: Operation not permitted"));
}
