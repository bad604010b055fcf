//! Counters shown on the dashboard, and the reports built from them.
use vstd::prelude::*;
use crate::text::{decimal, push_decimal};

verus! {

/// Calls `SystemTime::now` and returns the seconds since the Unix epoch
/// (zero if the clock is before it). Nothing is promised of the value: it is
/// the machine's clock.
#[verifier::external_body]
fn unix_now() -> u64 {
    std::time::SystemTime::now()
        .duration_since(std::time::UNIX_EPOCH)
        .unwrap_or_default()
        .as_secs()
}

/// The honeypot's counters. Counters wrap around on overflow.
#[derive(Debug)]
pub struct Metrics {
    pub connection_count: usize,
    pub attack_count: usize,
    pub port_migrations: usize,
    pub current_port: u64,
    /// When the counters started, in seconds since the Unix epoch.
    pub start_secs: u64,
}

/// `x + 1`, wrapping to zero past `usize::MAX`.
pub open spec fn bumped(x: usize) -> usize {
    if x == usize::MAX { 0 } else { (x + 1) as usize }
}

/// `x` bumped `n` times.
pub open spec fn bumped_times(x: usize, n: nat) -> usize
    decreases n,
{
    if n == 0 { x } else { bumped(bumped_times(x, (n - 1) as nat)) }
}

/// A counter bumped `n` times has grown by `n`, wrapping around past
/// `usize::MAX`: no increment is lost.
pub proof fn law_counter_adds(x: usize, n: nat)
    ensures
        bumped_times(x, n) as int == (x + n) % (usize::MAX + 1),
    decreases n,
{
    let m: int = usize::MAX + 1;
    if n == 0 {
        vstd::arithmetic::div_mod::lemma_small_mod(x as nat, m as nat);
    } else {
        law_counter_adds(x, (n - 1) as nat);
        let p = bumped_times(x, (n - 1) as nat);
        vstd::arithmetic::div_mod::lemma_add_mod_noop(x + n - 1, 1, m);
        vstd::arithmetic::div_mod::lemma_small_mod(1, m as nat);
        if p == usize::MAX {
            vstd::arithmetic::div_mod::lemma_mod_self_0(m);
        } else {
            vstd::arithmetic::div_mod::lemma_small_mod((p + 1) as nat, m as nat);
        }
    }
}

/// Seconds from `start` to `now`, zero if `now` is earlier.
pub open spec fn uptime_from(start: u64, now: u64) -> u64 {
    if now >= start { (now - start) as u64 } else { 0 }
}

/// What `/metrics` reports.
#[derive(Clone, Copy, Debug, PartialEq, Eq, Structural)]
pub struct MetricsReport {
    pub connections_total: usize,
    pub attacks_detected: usize,
    pub port_migrations: usize,
    pub current_port: u16,
    pub uptime_secs: u64,
}

/// What `/status` reports besides the version.
#[derive(Clone, Copy, Debug, PartialEq, Eq, Structural)]
pub struct StatusReport {
    pub current_port: u16,
    pub uptime_secs: u64,
}

fn bump(x: usize) -> (y: usize)
    ensures
        y == bumped(x),
{
    if x == usize::MAX { 0 } else { x + 1 }
}

impl Metrics {
    /// Counters at zero, no port yet, started now: `start_secs` is the Unix
    /// time read from the system clock, of which nothing is promised.
    pub fn new() -> (m: Self)
        ensures
            m.connection_count == 0,
            m.attack_count == 0,
            m.port_migrations == 0,
            m.current_port == 0,
    {
        Metrics {
            connection_count: 0,
            attack_count: 0,
            port_migrations: 0,
            current_port: 0,
            start_secs: unix_now(),
        }
    }

    /// Counts one accepted connection.
    pub fn inc_connections(&mut self)
        ensures
            final(self).connection_count == bumped(old(self).connection_count),
            final(self).attack_count == old(self).attack_count,
            final(self).port_migrations == old(self).port_migrations,
            final(self).current_port == old(self).current_port,
            final(self).start_secs == old(self).start_secs,
    {
        self.connection_count = bump(self.connection_count);
    }

    /// Counts one detected attack.
    pub fn inc_attacks(&mut self)
        ensures
            final(self).attack_count == bumped(old(self).attack_count),
            final(self).connection_count == old(self).connection_count,
            final(self).port_migrations == old(self).port_migrations,
            final(self).current_port == old(self).current_port,
            final(self).start_secs == old(self).start_secs,
    {
        self.attack_count = bump(self.attack_count);
    }

    /// Counts one port migration.
    pub fn inc_migrations(&mut self)
        ensures
            final(self).port_migrations == bumped(old(self).port_migrations),
            final(self).connection_count == old(self).connection_count,
            final(self).attack_count == old(self).attack_count,
            final(self).current_port == old(self).current_port,
            final(self).start_secs == old(self).start_secs,
    {
        self.port_migrations = bump(self.port_migrations);
    }

    /// Records the port the honeypot listens on.
    pub fn set_port(&mut self, port: u16)
        ensures
            final(self).current_port == port,
            final(self).connection_count == old(self).connection_count,
            final(self).attack_count == old(self).attack_count,
            final(self).port_migrations == old(self).port_migrations,
            final(self).start_secs == old(self).start_secs,
    {
        self.current_port = port as u64;
    }

    /// Seconds from the start to `now_secs`, zero if `now_secs` is earlier.
    pub fn uptime_at(&self, now_secs: u64) -> (u: u64)
        ensures
            u == uptime_from(self.start_secs, now_secs),
    {
        now_secs.saturating_sub(self.start_secs)
    }

    /// Seconds since the counters started.
    pub fn uptime_secs(&self) -> (u: u64)
        ensures
            exists|now: u64| u == #[trigger] uptime_from(self.start_secs, now),
    {
        self.uptime_at(unix_now())
    }

    /// The `/metrics` report for an uptime of `uptime` seconds; the port is
    /// reported as a `u16` (its low 16 bits).
    pub fn report(&self, uptime: u64) -> (r: MetricsReport)
        ensures
            r == (MetricsReport {
                connections_total: self.connection_count,
                attacks_detected: self.attack_count,
                port_migrations: self.port_migrations,
                current_port: self.current_port as u16,
                uptime_secs: uptime,
            }),
    {
        MetricsReport {
            connections_total: self.connection_count,
            attacks_detected: self.attack_count,
            port_migrations: self.port_migrations,
            current_port: self.current_port as u16,
            uptime_secs: uptime,
        }
    }

    /// The `/status` report for an uptime of `uptime` seconds.
    pub fn status(&self, uptime: u64) -> (r: StatusReport)
        ensures
            r == (StatusReport { current_port: self.current_port as u16, uptime_secs: uptime }),
    {
        StatusReport { current_port: self.current_port as u16, uptime_secs: uptime }
    }

    /// The Prometheus text exposition (format 0.0.4) of the counters, with an
    /// uptime of `uptime` seconds and build version `version`.
    pub fn prometheus_text(&self, uptime: u64, version: &str) -> (t: String)
        ensures
            t@ == prometheus_body(
                self.connection_count as nat,
                self.attack_count as nat,
                self.port_migrations as nat,
                self.current_port as nat,
                uptime as nat,
                version@,
            ),
    {
        let mut t = "# HELP echotrap_connections_total Total TCP connections accepted\n# TYPE echotrap_connections_total counter\nechotrap_connections_total ".to_owned();
        push_decimal(&mut t, self.connection_count as u64);
        t.append("\n\n# HELP echotrap_attacks_detected_total Scan/attack events detected\n# TYPE echotrap_attacks_detected_total counter\nechotrap_attacks_detected_total ");
        push_decimal(&mut t, self.attack_count as u64);
        t.append("\n\n# HELP echotrap_port_migrations_total Port migrations triggered\n# TYPE echotrap_port_migrations_total counter\nechotrap_port_migrations_total ");
        push_decimal(&mut t, self.port_migrations as u64);
        t.append("\n\n# HELP echotrap_current_port Currently active honeypot port\n# TYPE echotrap_current_port gauge\nechotrap_current_port ");
        push_decimal(&mut t, self.current_port);
        t.append("\n\n# HELP echotrap_uptime_seconds Process uptime in seconds\n# TYPE echotrap_uptime_seconds counter\nechotrap_uptime_seconds ");
        push_decimal(&mut t, uptime);
        t.append("\n\n# HELP echotrap_info Static build information\n# TYPE echotrap_info gauge\nechotrap_info{version=\"");
        t.append(version);
        t.append("\"} 1\n");
        t
    }
}

/// The Prometheus exposition of the counters.
pub open spec fn prometheus_body(
    connections: nat,
    attacks: nat,
    migrations: nat,
    port: nat,
    uptime: nat,
    version: Seq<char>,
) -> Seq<char> {
    "# HELP echotrap_connections_total Total TCP connections accepted\n# TYPE echotrap_connections_total counter\nechotrap_connections_total "@
        + decimal(connections)
        + "\n\n# HELP echotrap_attacks_detected_total Scan/attack events detected\n# TYPE echotrap_attacks_detected_total counter\nechotrap_attacks_detected_total "@
        + decimal(attacks)
        + "\n\n# HELP echotrap_port_migrations_total Port migrations triggered\n# TYPE echotrap_port_migrations_total counter\nechotrap_port_migrations_total "@
        + decimal(migrations)
        + "\n\n# HELP echotrap_current_port Currently active honeypot port\n# TYPE echotrap_current_port gauge\nechotrap_current_port "@
        + decimal(port)
        + "\n\n# HELP echotrap_uptime_seconds Process uptime in seconds\n# TYPE echotrap_uptime_seconds counter\nechotrap_uptime_seconds "@
        + decimal(uptime)
        + "\n\n# HELP echotrap_info Static build information\n# TYPE echotrap_info gauge\nechotrap_info{version=\""@
        + version
        + "\"} 1\n"@
}

} // verus!
