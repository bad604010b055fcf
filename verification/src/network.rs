//! The listener's decisions: what an accepted connection counts as, when a
//! requested migration goes ahead, what a completed migration records, and
//! when the shutdown drain ends. Accepting, binding, spawning and sleeping
//! are the application's.
use vstd::prelude::*;
use crate::detector::{hit_cap, hits_for, touched, updated_hits, AttackTracker, PeerAddr, MAX_TRACKED_IPS};
use crate::metrics::{bumped, bumped_times, Metrics};

verus! {

/// Minimum time between two migrations.
pub const MIGRATION_COOLDOWN_SECS: u64 = 5;
/// How long the decoy (or the redirect) serves the old port.
pub const DECOY_DURATION_SECS: u64 = 30;
/// How long shutdown waits for in-flight connections.
pub const DRAIN_TIMEOUT_SECS: u64 = 5;
/// How long to wait for a connection slot before dropping the connection.
pub const BACKPRESSURE_WAIT_MS: u64 = 500;
/// The cooldown in nanoseconds.
pub const MIGRATION_COOLDOWN_NS: u64 = 5000000000;

/// Whether a migration requested at `now` is refused because the last one
/// (at `last`, if any) is less than the cooldown ago. Times are nanoseconds
/// on one monotonic clock; a `now` before `last` counts as no time elapsed.
pub open spec fn in_cooldown(last: Option<u64>, now: u64) -> bool {
    match last {
        Some(t) => (if now >= t { now - t } else { 0 }) < MIGRATION_COOLDOWN_NS,
        None => false,
    }
}

/// The port currently served and when the last migration completed.
pub struct MigrationGate {
    last_migration: Option<u64>,
    current_port: u16,
}

impl MigrationGate {
    /// When the last migration completed, if any.
    pub closed spec fn last(&self) -> Option<u64> {
        self.last_migration
    }

    /// The port currently served.
    pub closed spec fn port(&self) -> u16 {
        self.current_port
    }

    /// A gate for a honeypot starting on `port`, with no migration yet.
    pub fn new(port: u16) -> (g: Self)
        ensures
            g.last() is None,
            g.port() == port,
    {
        MigrationGate { last_migration: None, current_port: port }
    }

    /// The port currently served.
    pub fn current_port(&self) -> (p: u16)
        ensures
            p == self.port(),
    {
        self.current_port
    }

    /// Whether a migration requested at `now` must be ignored: the last one
    /// completed less than `MIGRATION_COOLDOWN_SECS` ago.
    pub fn cooldown_active(&self, now: u64) -> (busy: bool)
        ensures
            busy == in_cooldown(self.last(), now),
    {
        match self.last_migration {
            Some(t) => now.saturating_sub(t) < MIGRATION_COOLDOWN_NS,
            None => false,
        }
    }

    /// Records that the honeypot has moved to `new_port` at `now`.
    pub fn finish(&mut self, new_port: u16, now: u64)
        ensures
            final(self).port() == new_port,
            final(self).last() == Some(now),
    {
        self.current_port = new_port;
        self.last_migration = Some(now);
    }
}

/// Two completed migrations are at least the cooldown apart: after one
/// completes at `t1`, a request at any `t2 >= t1` goes ahead only when
/// `t2 - t1` is at least `MIGRATION_COOLDOWN_SECS` seconds.
pub proof fn law_migrations_spaced(t1: u64, t2: u64)
    requires
        t1 <= t2,
        !in_cooldown(Some(t1), t2),
    ensures
        t2 - t1 >= MIGRATION_COOLDOWN_SECS * 1000000000,
{
}

/// When the last of `done` completed, if any.
pub open spec fn last_time(done: Seq<(u64, u16)>) -> Option<u64> {
    if done.len() == 0 { None } else { Some(done.last().0) }
}

/// The migration requests of a run, each a time and the port found for it,
/// that go ahead on a gate with no migration yet: those made when no
/// migration has completed within the cooldown.
pub open spec fn accepted(reqs: Seq<(u64, u16)>) -> Seq<(u64, u16)>
    decreases reqs.len(),
{
    if reqs.len() == 0 {
        Seq::empty()
    } else {
        let done = accepted(reqs.drop_last());
        if in_cooldown(last_time(done), reqs.last().0) {
            done
        } else {
            done.push(reqs.last())
        }
    }
}

/// When the last migration completed, the port served and the migrations
/// counter once the requests are handled in order, starting from `port`
/// with no migration yet and the counter at `count`: a request in the
/// cooldown is ignored (`cooldown_active`), any other moves the honeypot
/// (`complete_migration`). A request whose port search or bind fails
/// changes nothing (`switch_if_bound`), so a run lists only the others.
pub open spec fn gate_run(reqs: Seq<(u64, u16)>, port: u16, count: usize) -> (Option<u64>, u16, usize)
    decreases reqs.len(),
{
    if reqs.len() == 0 {
        (None, port, count)
    } else {
        let prev = gate_run(reqs.drop_last(), port, count);
        let (now, to) = reqs.last();
        if in_cooldown(prev.0, now) {
            prev
        } else {
            (Some(now), to, bumped(prev.2))
        }
    }
}

/// Migrations over a run: for requests at non-decreasing times, each
/// migration that goes ahead adds exactly one to the counter and leaves the
/// honeypot on the port found for it, requests in the cooldown change
/// nothing, and two migrations are never less than the cooldown apart.
pub proof fn law_migrations_over_run(reqs: Seq<(u64, u16)>, port: u16, count: usize)
    requires
        forall|i: int, j: int| 0 <= i <= j < reqs.len() ==> reqs[i].0 <= reqs[j].0,
    ensures
        gate_run(reqs, port, count).0 == last_time(accepted(reqs)),
        gate_run(reqs, port, count).1 == if accepted(reqs).len() == 0 { port } else { accepted(reqs).last().1 },
        gate_run(reqs, port, count).2 == bumped_times(count, accepted(reqs).len()),
        forall|i: int, j: int| 0 <= i < j < accepted(reqs).len()
            ==> accepted(reqs)[j].0 - accepted(reqs)[i].0 >= MIGRATION_COOLDOWN_SECS * 1000000000,
        reqs.len() > 0 ==> forall|i: int| 0 <= i < accepted(reqs).len() ==> accepted(reqs)[i].0 <= reqs.last().0,
    decreases reqs.len(),
{
    if reqs.len() > 0 {
        let d = reqs.drop_last();
        let n = reqs.len() as int;
        assert forall|i: int, j: int| 0 <= i <= j < d.len() implies d[i].0 <= d[j].0 by {
            assert(d[i] == reqs[i] && d[j] == reqs[j]);
        }
        law_migrations_over_run(d, port, count);
        let done = accepted(d);
        let r = reqs.last();
        if d.len() > 0 {
            assert(d.last() == reqs[n - 2]);
            assert(reqs[n - 2].0 <= reqs[n - 1].0);
        }
        if !in_cooldown(last_time(done), r.0) {
            let a = done.push(r);
            assert forall|i: int, j: int| 0 <= i < j < a.len() implies a[j].0 - a[i].0 >= MIGRATION_COOLDOWN_SECS * 1000000000 by {
                assert(a[i] == done[i]);
                if j < done.len() {
                    assert(a[j] == done[j]);
                } else {
                    let k = done.len() - 1;
                    assert(done.last() == done[k]);
                    if i < k {
                        assert(done[k].0 - done[i].0 >= MIGRATION_COOLDOWN_SECS * 1000000000);
                    }
                    law_migrations_spaced(done[k].0, r.0);
                }
            }
            assert(bumped_times(count, a.len()) == bumped(bumped_times(count, done.len())));
        }
    }
}

/// Each migration over a run moves the honeypot to another port: when the
/// port found for each request differs from the port served when the
/// request is handled (as a search that excludes the current port gives
/// it), the first migration leaves the starting port and every later one
/// leaves the port the one before it took.
pub proof fn law_migrations_change_port(reqs: Seq<(u64, u16)>, port: u16, count: usize)
    requires
        forall|i: int, j: int| 0 <= i <= j < reqs.len() ==> reqs[i].0 <= reqs[j].0,
        forall|i: int| 0 <= i < reqs.len() ==> #[trigger] reqs[i].1 != gate_run(reqs.take(i), port, count).1,
    ensures
        accepted(reqs).len() > 0 ==> accepted(reqs)[0].1 != port,
        forall|i: int| 0 < i < accepted(reqs).len() ==> #[trigger] accepted(reqs)[i].1 != accepted(reqs)[i - 1].1,
    decreases reqs.len(),
{
    if reqs.len() > 0 {
        let d = reqs.drop_last();
        let n = reqs.len() as int;
        assert forall|i: int, j: int| 0 <= i <= j < d.len() implies d[i].0 <= d[j].0 by {
            assert(d[i] == reqs[i] && d[j] == reqs[j]);
        }
        assert forall|i: int| 0 <= i < d.len() implies #[trigger] d[i].1 != gate_run(d.take(i), port, count).1 by {
            assert(d[i] == reqs[i]);
            assert(d.take(i) =~= reqs.take(i));
        }
        law_migrations_change_port(d, port, count);
        law_migrations_over_run(d, port, count);
        let done = accepted(d);
        let r = reqs.last();
        assert(reqs.take(n - 1) =~= d);
        assert(r == reqs[n - 1]);
        if !in_cooldown(last_time(done), r.0) {
            let a = done.push(r);
            assert forall|i: int| 0 < i < a.len() implies #[trigger] a[i].1 != a[i - 1].1 by {
                if i < done.len() {
                    assert(a[i] == done[i] && a[i - 1] == done[i - 1]);
                } else {
                    assert(a[i - 1] == done.last());
                }
            }
            if done.len() > 0 {
                assert(a[0] == done[0]);
            }
        }
    }
}

/// Completes a migration once the listener on `new_port` is bound, and
/// returns whether it did; an unbound listener leaves everything unchanged
/// and the old listener serving.
pub fn switch_if_bound(gate: &mut MigrationGate, metrics: &mut Metrics, new_port: u16, bound: bool, now: u64) -> (switched: bool)
    ensures
        switched == bound,
        bound ==> {
            &&& final(gate).port() == new_port
            &&& final(gate).last() == Some(now)
            &&& final(metrics).current_port == new_port
            &&& final(metrics).port_migrations == bumped(old(metrics).port_migrations)
            &&& final(metrics).connection_count == old(metrics).connection_count
            &&& final(metrics).attack_count == old(metrics).attack_count
            &&& final(metrics).start_secs == old(metrics).start_secs
        },
        !bound ==> {
            &&& final(gate).port() == old(gate).port()
            &&& final(gate).last() == old(gate).last()
            &&& final(metrics).current_port == old(metrics).current_port
            &&& final(metrics).port_migrations == old(metrics).port_migrations
            &&& final(metrics).connection_count == old(metrics).connection_count
            &&& final(metrics).attack_count == old(metrics).attack_count
            &&& final(metrics).start_secs == old(metrics).start_secs
        },
{
    if bound {
        complete_migration(gate, metrics, new_port, now);
    }
    bound
}

/// Handles the bookkeeping of an accepted connection from `addr` at `now`:
/// the connection is counted, recorded by the tracker, and when the tracker
/// finds the IP suspicious an attack is counted and a migration is asked for
/// (the result).
pub fn on_connection(tracker: &mut AttackTracker, metrics: &mut Metrics, addr: PeerAddr, now: u64) -> (migrate: bool)
    requires
        old(tracker).wf(),
    ensures
        final(tracker).wf(),
        final(tracker).threshold_hits() == old(tracker).threshold_hits(),
        final(tracker).window_nanos() == old(tracker).window_nanos(),
        final(tracker).entries() == touched(
            old(tracker).entries(),
            addr.ip.spec_key(),
            updated_hits(hits_for(old(tracker).entries(), addr.ip.spec_key()), now, old(tracker).window_nanos(), hit_cap(old(tracker).threshold_hits())),
            MAX_TRACKED_IPS as nat,
        ),
        migrate == (updated_hits(
            hits_for(old(tracker).entries(), addr.ip.spec_key()),
            now,
            old(tracker).window_nanos(),
            hit_cap(old(tracker).threshold_hits()),
        ).len() >= old(tracker).threshold_hits()),
        final(metrics).connection_count == bumped(old(metrics).connection_count),
        final(metrics).attack_count == if migrate { bumped(old(metrics).attack_count) } else { old(metrics).attack_count },
        final(metrics).port_migrations == old(metrics).port_migrations,
        final(metrics).current_port == old(metrics).current_port,
        final(metrics).start_secs == old(metrics).start_secs,
{
    metrics.inc_connections();
    let suspicious = tracker.record_and_check_at(addr, now);
    if suspicious {
        metrics.inc_attacks();
    }
    suspicious
}

/// Bookkeeping after the honeypot starts serving `new_port` at `now`: the
/// gate and the metrics take the new port and one more move is counted.
pub fn complete_migration(gate: &mut MigrationGate, metrics: &mut Metrics, new_port: u16, now: u64)
    ensures
        final(gate).port() == new_port,
        final(gate).last() == Some(now),
        final(metrics).current_port == new_port,
        final(metrics).port_migrations == bumped(old(metrics).port_migrations),
        final(metrics).connection_count == old(metrics).connection_count,
        final(metrics).attack_count == old(metrics).attack_count,
        final(metrics).start_secs == old(metrics).start_secs,
{
    gate.finish(new_port, now);
    metrics.set_port(new_port);
    metrics.inc_migrations();
}

/// What the shutdown drain does next.
#[derive(Clone, Copy, Debug, PartialEq, Eq, Structural)]
pub enum DrainStep {
    /// No connection is open any more: shut down.
    Drained,
    /// The drain timed out with this many connections still open: exit anyway.
    TimedOut(usize),
    /// Wait a little and look again.
    Wait,
}

/// One look during the shutdown drain, with `remaining_ns` of the drain
/// timeout left and `active` connections open: a timed-out drain ends
/// (reporting what is still open), an empty one ends, otherwise it waits.
pub fn drain_step(remaining_ns: u64, active: usize) -> (s: DrainStep)
    ensures
        remaining_ns == 0 ==> s == DrainStep::TimedOut(active),
        remaining_ns > 0 && active == 0 ==> s == DrainStep::Drained,
        remaining_ns > 0 && active > 0 ==> s == DrainStep::Wait,
{
    if remaining_ns == 0 {
        DrainStep::TimedOut(active)
    } else if active == 0 {
        DrainStep::Drained
    } else {
        DrainStep::Wait
    }
}

} // verus!
