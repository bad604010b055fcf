//! Port selection for migration, and the bounded history of migrations.
use vstd::prelude::*;
use crate::clock::instant_now;
use crate::detector::PeerAddr;
use crate::error::MigrationError;

verus! {

/// First port of the Linux ephemeral range.
pub const EPHEMERAL_START: u16 = 32768;
/// Last port of the Linux ephemeral range.
pub const EPHEMERAL_END: u16 = 60999;
/// Ports below this one are privileged.
pub const RESERVED_BELOW: u16 = 1024;
/// How many candidate ports a search draws before it gives up.
pub const MAX_PORT_ATTEMPTS: usize = 16;
/// Number of safe ports below the ephemeral range (1024..=32767).
pub const BAND_A_SIZE: u32 = 31744;
/// Number of safe ports above the ephemeral range (61000..=65535).
pub const BAND_B_SIZE: u32 = 4536;
/// How many migration events the history keeps.
pub const MAX_HISTORY: usize = 256;

/// A port a honeypot may move to: not privileged and not ephemeral.
pub open spec fn is_safe_port(p: int) -> bool {
    RESERVED_BELOW <= p <= u16::MAX && !(EPHEMERAL_START <= p <= EPHEMERAL_END)
}

/// The safe port at position `idx` (below `BAND_A_SIZE + BAND_B_SIZE`): the
/// lower band first, then the upper one.
pub open spec fn port_at_index(idx: int) -> int {
    if idx < BAND_A_SIZE {
        RESERVED_BELOW + idx
    } else {
        EPHEMERAL_END + 1 + (idx - BAND_A_SIZE)
    }
}

/// The candidate port selected by the random draw `r`: `r` reduced modulo
/// the number of safe ports picks a position in the two bands.
pub open spec fn port_for_draw(r: u32) -> int {
    port_at_index(r as int % (BAND_A_SIZE + BAND_B_SIZE))
}

/// Calls `rand::random::<u32>`. Nothing is promised of the value: it is random.
#[verifier::external_body]
fn random_u32() -> u32 {
    rand::random::<u32>()
}

/// The candidate port a random draw `r` selects: `r` reduced modulo the
/// number of safe ports picks a position in the two bands.
pub fn port_from_draw(r: u32) -> (p: u16)
    ensures
        p == port_for_draw(r),
        is_safe_port(p as int),
{
    let idx = r % (BAND_A_SIZE + BAND_B_SIZE);
    if idx < BAND_A_SIZE {
        RESERVED_BELOW + idx as u16
    } else {
        EPHEMERAL_END + 1 + (idx - BAND_A_SIZE) as u16
    }
}

/// A random safe port: never privileged, never in the ephemeral range.
pub fn candidate_port() -> (p: u16)
    ensures
        is_safe_port(p as int),
        exists|r: u32| p == port_for_draw(r),
{
    port_from_draw(random_u32())
}

/// Every safe port is the candidate of some draw, and every draw gives a safe
/// port: the selection covers exactly the safe ports.
pub proof fn law_candidates_are_the_safe_ports(p: int)
    ensures
        is_safe_port(p) <==> exists|idx: int| 0 <= idx < BAND_A_SIZE + BAND_B_SIZE && #[trigger] port_at_index(idx) == p,
{
    if is_safe_port(p) {
        let idx = if p < EPHEMERAL_START { p - RESERVED_BELOW } else { p - EPHEMERAL_END - 1 + BAND_A_SIZE };
        assert(port_at_index(idx) == p);
    }
}

/// What one draw of a port search leads to.
#[derive(Clone, Copy, Debug, PartialEq, Eq, Structural)]
pub enum SearchStep {
    /// The drawn port is the one to move away from: draw again.
    Skip,
    /// Try to bind this port.
    Probe(u16),
    /// All attempts are used up.
    Exhausted,
}

/// The search for a free port to migrate to, excluding the current one:
/// at most `MAX_PORT_ATTEMPTS` draws, each skipped when it hits the
/// excluded port. Binding a probed port is the caller's part.
pub struct PortSearch {
    exclude: u16,
    attempts: usize,
    draws: Ghost<Seq<u32>>,
}

/// Every port a draw selects is safe.
pub proof fn lemma_draw_is_safe(r: u32)
    ensures
        is_safe_port(port_for_draw(r)),
{
}

impl PortSearch {
    /// The port the search avoids.
    pub closed spec fn excluded(&self) -> u16 {
        self.exclude
    }

    /// How many draws the search has made.
    pub closed spec fn attempts_made(&self) -> nat {
        self.attempts as nat
    }

    /// The random values drawn so far, in order.
    pub closed spec fn draws(&self) -> Seq<u32> {
        self.draws@
    }

    pub closed spec fn wf(&self) -> bool {
        &&& self.attempts <= MAX_PORT_ATTEMPTS
        &&& self.draws@.len() == self.attempts
    }

    /// A well-formed search has made at most `MAX_PORT_ATTEMPTS` draws, and
    /// recorded each of them.
    pub proof fn lemma_bounded(&self)
        requires
            self.wf(),
        ensures
            self.attempts_made() <= MAX_PORT_ATTEMPTS,
            self.draws().len() == self.attempts_made(),
    {
    }

    /// A search that has made no draw yet.
    pub fn new(exclude: u16) -> (s: Self)
        ensures
            s.wf(),
            s.excluded() == exclude,
            s.attempts_made() == 0,
            s.attempts_made() <= MAX_PORT_ATTEMPTS,
            s.draws() == Seq::<u32>::empty(),
    {
        PortSearch { exclude, attempts: 0, draws: Ghost(Seq::empty()) }
    }

    /// One draw with the random value `r`: when attempts remain, the draw is
    /// counted and its port probed, or skipped when it is the excluded port;
    /// otherwise the search is exhausted and unchanged.
    pub fn step(&mut self, r: u32) -> (next: SearchStep)
        requires
            old(self).wf(),
        ensures
            final(self).wf(),
            final(self).excluded() == old(self).excluded(),
            final(self).attempts_made() <= MAX_PORT_ATTEMPTS,
            old(self).attempts_made() >= MAX_PORT_ATTEMPTS ==> {
                &&& next == SearchStep::Exhausted
                &&& final(self).attempts_made() == old(self).attempts_made()
                &&& final(self).draws() == old(self).draws()
            },
            old(self).attempts_made() < MAX_PORT_ATTEMPTS ==> {
                let p = port_for_draw(r);
                &&& final(self).attempts_made() == old(self).attempts_made() + 1
                &&& final(self).draws() == old(self).draws().push(r)
                &&& next == if p == old(self).excluded() { SearchStep::Skip } else { SearchStep::Probe(p as u16) }
            },
    {
        if self.attempts >= MAX_PORT_ATTEMPTS {
            return SearchStep::Exhausted;
        }
        self.attempts = self.attempts + 1;
        self.draws = Ghost(self.draws@.push(r));
        let port = port_from_draw(r);
        if port == self.exclude {
            SearchStep::Skip
        } else {
            SearchStep::Probe(port)
        }
    }

    /// Draws random ports until one other than the excluded port comes up,
    /// and returns it; `None` once all attempts are used up. The draws made
    /// are recorded; each of them selected the excluded port, except the last
    /// one when a port is returned, which is the port that draw selected. So
    /// a search that excludes an unsafe port (one no draw can select) always
    /// returns a port while attempts remain.
    pub fn next_candidate(&mut self) -> (port: Option<u16>)
        requires
            old(self).wf(),
        ensures
            final(self).wf(),
            final(self).excluded() == old(self).excluded(),
            old(self).attempts_made() <= final(self).attempts_made() <= MAX_PORT_ATTEMPTS,
            final(self).draws().subrange(0, old(self).attempts_made() as int) == old(self).draws(),
            forall|i: int|
                old(self).attempts_made() <= i < final(self).attempts_made()
                    && !(port is Some && i == final(self).attempts_made() - 1)
                    ==> port_for_draw(#[trigger] final(self).draws()[i]) == old(self).excluded(),
            port matches Some(p) ==> {
                &&& final(self).attempts_made() > old(self).attempts_made()
                &&& p == port_for_draw(final(self).draws().last())
                &&& p != old(self).excluded()
                &&& is_safe_port(p as int)
            },
            port is None ==> final(self).attempts_made() == MAX_PORT_ATTEMPTS,
            !is_safe_port(old(self).excluded() as int) && old(self).attempts_made() < MAX_PORT_ATTEMPTS ==> port is Some,
    {
        let ghost start = self.attempts as int;
        let ghost d0 = self.draws@;
        loop
            invariant
                self.wf(),
                self.excluded() == old(self).excluded(),
                start == old(self).attempts_made(),
                d0 == old(self).draws(),
                self.attempts_made() >= start,
                self.draws().subrange(0, start) == d0,
                forall|i: int| start <= i < self.attempts_made()
                    ==> port_for_draw(#[trigger] self.draws()[i]) == old(self).excluded(),
            decreases MAX_PORT_ATTEMPTS - self.attempts_made(),
        {
            let ghost before = self.draws@;
            let r = random_u32();
            match self.step(r) {
                SearchStep::Skip => {
                    proof {
                        assert(self.draws().subrange(0, start) =~= before.subrange(0, start));
                        assert forall|i: int| start <= i < self.attempts_made()
                            implies port_for_draw(#[trigger] self.draws()[i]) == old(self).excluded() by {
                            if i < before.len() {
                                assert(self.draws()[i] == before[i]);
                            }
                        }
                    }
                },
                SearchStep::Probe(p) => {
                    proof {
                        assert(self.draws().subrange(0, start) =~= before.subrange(0, start));
                        assert(self.draws().last() == r);
                        lemma_draw_is_safe(r);
                        assert forall|i: int| start <= i < self.attempts_made() && i != self.attempts_made() - 1
                            implies port_for_draw(#[trigger] self.draws()[i]) == old(self).excluded() by {
                            assert(self.draws()[i] == before[i]);
                        }
                    }
                    return Some(p);
                },
                SearchStep::Exhausted => {
                    proof {
                        if !is_safe_port(old(self).excluded() as int) && start < MAX_PORT_ATTEMPTS {
                            let i = start;
                            lemma_draw_is_safe(self.draws()[i]);
                            assert(port_for_draw(self.draws()[i]) == old(self).excluded());
                        }
                    }
                    return None;
                },
            }
        }
    }

    /// The error reported when the search gives up.
    pub fn give_up(&self) -> (e: MigrationError)
        ensures
            e matches MigrationError::NoFreePort { attempts, exclude } && attempts == self.attempts_made() && exclude == self.excluded(),
    {
        MigrationError::NoFreePort { attempts: self.attempts, exclude: self.exclude }
    }
}

// ── Migration history ─────────────────────────────────────────────────────────

/// One migration: the ports it moved between, the connection that triggered
/// it, and when it happened.
#[derive(Debug, Clone)]
pub struct MigrationEvent {
    pub from_port: u16,
    pub to_port: u16,
    pub trigger_ip: Option<PeerAddr>,
    pub at: std::time::Instant,
}

/// The most recent migrations, at most `MAX_HISTORY` of them, oldest first.
#[derive(Debug)]
pub struct MigrationHistory {
    events: Vec<MigrationEvent>,
}

/// The events kept when one more is recorded: the oldest is dropped once the
/// history is full.
pub open spec fn kept_before_record(events: Seq<MigrationEvent>) -> Seq<MigrationEvent> {
    if events.len() >= MAX_HISTORY { events.drop_first() } else { events }
}

impl MigrationHistory {
    /// The recorded events, oldest first.
    pub closed spec fn log(&self) -> Seq<MigrationEvent> {
        self.events@
    }

    pub closed spec fn wf(&self) -> bool {
        self.events@.len() <= MAX_HISTORY
    }

    /// A well-formed history holds at most `MAX_HISTORY` events.
    pub proof fn lemma_bounded(&self)
        requires
            self.wf(),
        ensures
            self.log().len() <= MAX_HISTORY,
    {
    }

    /// An empty history.
    pub fn new() -> (h: Self)
        ensures
            h.wf(),
            h.log() == Seq::<MigrationEvent>::empty(),
    {
        MigrationHistory { events: Vec::new() }
    }

    /// Records a migration from `from` to `to`, triggered by `trigger`, at the
    /// current time; when the history is full the oldest event is dropped.
    pub fn record(&mut self, from: u16, to: u16, trigger: Option<PeerAddr>)
        requires
            old(self).wf(),
        ensures
            final(self).wf(),
            final(self).log().len() <= MAX_HISTORY,
            final(self).log().len() == kept_before_record(old(self).log()).len() + 1,
            final(self).log().drop_last() == kept_before_record(old(self).log()),
            final(self).log().last().from_port == from,
            final(self).log().last().to_port == to,
            final(self).log().last().trigger_ip == trigger,
    {
        if self.events.len() >= MAX_HISTORY {
            self.events.remove(0);
        }
        let ghost kept = self.events@;
        self.events.push(MigrationEvent { from_port: from, to_port: to, trigger_ip: trigger, at: instant_now() });
        assert(self.events@.drop_last() =~= kept);
    }

    /// The most recent event, if any.
    pub fn last(&self) -> (e: Option<&MigrationEvent>)
        ensures
            self.log().len() == 0 ==> e is None,
            self.log().len() > 0 ==> e == Some(&self.log().last()),
    {
        if self.events.len() == 0 {
            None
        } else {
            Some(&self.events[self.events.len() - 1])
        }
    }

    /// The number of recorded events.
    pub fn count(&self) -> (n: usize)
        requires
            self.wf(),
        ensures
            n == self.log().len(),
            n <= MAX_HISTORY,
    {
        self.events.len()
    }
}

impl Default for MigrationHistory {
    fn default() -> (h: Self)
        ensures
            h.wf(),
            h.log() == Seq::<MigrationEvent>::empty(),
    {
        MigrationHistory::new()
    }
}

} // verus!
