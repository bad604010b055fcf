//! Sliding-window scan detection per source IP, over an LRU cache that
//! bounds the number of tracked IPs.
use vstd::prelude::*;
use lru::LruCache;
use crate::clock::{elapsed_nanos, instant_now};

verus! {

/// Maximum number of distinct IPs tracked simultaneously. When full, the
/// least-recently-seen IP is evicted.
pub const MAX_TRACKED_IPS: usize = 10000;

/// Nanoseconds per second.
pub const NANOS_PER_SEC: u128 = 1000000000;

/// The widest window a tracker can have: `u64::MAX` seconds.
pub const MAX_WINDOW_NS: u128 = 18446744073709551615000000000;

/// An IP address as a key: the address family (4 or 6) and the address bits.
pub type IpKey = (u8, u128);

/// The IP address of a peer.
#[derive(Clone, Copy, Debug, PartialEq, Eq, Structural)]
pub enum PeerIp {
    V4(u32),
    V6(u128),
}

impl PeerIp {
    /// The key under which the address is tracked: distinct addresses have
    /// distinct keys, and an IPv4 address never shares a key with an IPv6 one.
    pub open spec fn spec_key(self) -> IpKey {
        match self {
            PeerIp::V4(a) => (4u8, a as u128),
            PeerIp::V6(a) => (6u8, a),
        }
    }

    pub fn key(&self) -> (k: IpKey)
        ensures
            k == self.spec_key(),
    {
        match self {
            PeerIp::V4(a) => (4u8, *a as u128),
            PeerIp::V6(a) => (6u8, *a),
        }
    }
}

/// A peer's socket address: its IP and port.
#[derive(Clone, Copy, Debug, PartialEq, Eq, Structural)]
pub struct PeerAddr {
    pub ip: PeerIp,
    pub port: u16,
}

// ── The LRU cache of `lru` ───────────────────────────────────────────────────

/// `lru::LruCache`, declared so that it can be held in a field.
#[verifier::external_type_specification]
#[verifier::external_body]
#[verifier::reject_recursive_types(K)]
#[verifier::reject_recursive_types(V)]
#[verifier::reject_recursive_types(S)]
pub struct ExLruCache<K, V, S>(LruCache<K, V, S>);

/// The hasher `lru` uses by default, declared so that the cache type can be named.
#[verifier::external_type_specification]
#[verifier::external_body]
pub struct ExLruDefaultHasher(lru::DefaultHasher);

/// The contents of the cache in recency order, most recently used first:
/// each key with its timestamps.
pub uninterp spec fn lru_entries(cache: LruCache<IpKey, Vec<u64>>) -> Seq<(IpKey, Seq<u64>)>;

/// The capacity the cache was made with.
pub uninterp spec fn lru_capacity(cache: LruCache<IpKey, Vec<u64>>) -> nat;

/// Whether `key` occurs among the entries.
pub open spec fn has_key(entries: Seq<(IpKey, Seq<u64>)>, key: IpKey) -> bool {
    exists|i: int| 0 <= i < entries.len() && entries[i].0 == key
}

/// The timestamps stored for `key` (empty when `key` is absent).
pub open spec fn hits_for(entries: Seq<(IpKey, Seq<u64>)>, key: IpKey) -> Seq<u64>
    decreases entries.len(),
{
    if entries.len() == 0 {
        Seq::empty()
    } else if entries[0].0 == key {
        entries[0].1
    } else {
        hits_for(entries.drop_first(), key)
    }
}

/// The entries without those for `key`, in the same order.
pub open spec fn without_key(entries: Seq<(IpKey, Seq<u64>)>, key: IpKey) -> Seq<(IpKey, Seq<u64>)>
    decreases entries.len(),
{
    if entries.len() == 0 {
        entries
    } else if entries[0].0 == key {
        without_key(entries.drop_first(), key)
    } else {
        seq![entries[0]] + without_key(entries.drop_first(), key)
    }
}

/// No key occurs twice.
pub open spec fn keys_distinct(entries: Seq<(IpKey, Seq<u64>)>) -> bool {
    forall|i: int, j: int| 0 <= i < j < entries.len() ==> entries[i].0 != entries[j].0
}

/// The entries after `key` is looked up or inserted with `value` as the most
/// recently used entry: a present key moves to the front; an absent key is
/// inserted at the front, and when the cache is full the least recently used
/// entry (the last) is evicted first.
pub open spec fn touched(
    entries: Seq<(IpKey, Seq<u64>)>,
    key: IpKey,
    value: Seq<u64>,
    cap: nat,
) -> Seq<(IpKey, Seq<u64>)> {
    seq![(key, value)] + if has_key(entries, key) {
        without_key(entries, key)
    } else if entries.len() == cap {
        entries.drop_last()
    } else {
        entries
    }
}

/// A value for a freshly inserted key: no timestamps.
fn empty_hits() -> (v: Vec<u64>)
    ensures
        v@ == Seq::<u64>::empty(),
{
    Vec::new()
}

/// Calls `LruCache::new` with capacity `cap`.
#[verifier::external_body]
fn history_new(cap: usize) -> (cache: LruCache<IpKey, Vec<u64>>)
    requires
        cap > 0,
    ensures
        lru_entries(cache) == Seq::<(IpKey, Seq<u64>)>::empty(),
        lru_capacity(cache) == cap,
{
    LruCache::new(std::num::NonZeroUsize::new(cap).unwrap())
}

/// Calls `LruCache::get_or_insert_mut`, inserting an empty list for an absent
/// key. The entry becomes the most recently used one; when the key is absent
/// and the cache full, the least recently used entry is evicted.
#[verifier::external_body]
fn history_get_or_insert<'a>(cache: &'a mut LruCache<IpKey, Vec<u64>>, key: IpKey) -> (entry: &'a mut Vec<u64>)
    ensures
        entry@ == hits_for(lru_entries(*old(cache)), key),
        lru_capacity(*final(cache)) == lru_capacity(*old(cache)),
        lru_entries(*final(cache)) == touched(
            lru_entries(*old(cache)),
            key,
            final(entry)@,
            lru_capacity(*old(cache)),
        ),
{
    cache.get_or_insert_mut(key, empty_hits)
}

/// Calls `LruCache::len`.
#[verifier::external_body]
fn history_len(cache: &LruCache<IpKey, Vec<u64>>) -> (n: usize)
    ensures
        n == lru_entries(*cache).len(),
{
    cache.len()
}

/// Calls `LruCache::iter` and collects the keys, most recently used first.
#[verifier::external_body]
fn history_keys(cache: &LruCache<IpKey, Vec<u64>>) -> (keys: Vec<IpKey>)
    ensures
        keys@ == lru_entries(*cache).map_values(|e: (IpKey, Seq<u64>)| e.0),
{
    cache.iter().map(|(k, _)| *k).collect()
}

/// Calls `LruCache::peek`, which does not change the recency order.
#[verifier::external_body]
fn history_peek<'a>(cache: &'a LruCache<IpKey, Vec<u64>>, key: &IpKey) -> (found: Option<&'a Vec<u64>>)
    ensures
        found is Some <==> has_key(lru_entries(*cache), *key),
        found matches Some(v) ==> v@ == hits_for(lru_entries(*cache), *key),
{
    cache.peek(key)
}

/// Calls `LruCache::pop`, which removes the entry for `key`.
#[verifier::external_body]
fn history_pop(cache: &mut LruCache<IpKey, Vec<u64>>, key: &IpKey) -> (removed: Option<Vec<u64>>)
    ensures
        removed is Some <==> has_key(lru_entries(*old(cache)), *key),
        removed matches Some(v) ==> v@ == hits_for(lru_entries(*old(cache)), *key),
        lru_capacity(*final(cache)) == lru_capacity(*old(cache)),
        lru_entries(*final(cache)) == without_key(lru_entries(*old(cache)), *key),
{
    cache.pop(key)
}

// ── The sliding window ───────────────────────────────────────────────────────

/// A timestamp is inside the window ending at `now` when it is no older than
/// `window_ns` nanoseconds.
pub open spec fn in_window(t: u64, now: u64, window_ns: int) -> bool {
    t + window_ns >= now
}

/// The timestamps inside the window, in their order.
pub open spec fn recent(hits: Seq<u64>, now: u64, window_ns: int) -> Seq<u64>
    decreases hits.len(),
{
    if hits.len() == 0 {
        hits
    } else {
        let r = recent(hits.drop_last(), now, window_ns);
        if in_window(hits.last(), now, window_ns) {
            r.push(hits.last())
        } else {
            r
        }
    }
}

/// The newest `cap` timestamps (the last ones), or all when there are fewer.
pub open spec fn newest(s: Seq<u64>, cap: nat) -> Seq<u64> {
    if s.len() > cap {
        s.subrange(s.len() - cap, s.len() as int)
    } else {
        s
    }
}

/// The timestamps kept for an IP after a connection at `now`: `now` is
/// appended, those outside the window dropped, and at most `cap` newest kept.
pub open spec fn updated_hits(prior: Seq<u64>, now: u64, window_ns: int, cap: nat) -> Seq<u64> {
    newest(recent(prior.push(now), now, window_ns), cap)
}

/// The per-IP bound on stored timestamps: four times the threshold,
/// saturating at `usize::MAX`.
pub open spec fn hit_cap(threshold: nat) -> nat {
    if threshold * 4 > usize::MAX { usize::MAX as nat } else { threshold * 4 }
}

/// Every timestamp is older than the window ending at `now`.
pub open spec fn stale(hits: Seq<u64>, now: u64, window_ns: int) -> bool {
    forall|i: int| 0 <= i < hits.len() ==> !in_window(#[trigger] hits[i], now, window_ns)
}

/// The entries of which some timestamp is inside the window, in their order.
pub open spec fn fresh_entries(entries: Seq<(IpKey, Seq<u64>)>, now: u64, window_ns: int) -> Seq<(IpKey, Seq<u64>)>
    decreases entries.len(),
{
    if entries.len() == 0 {
        entries
    } else {
        let r = fresh_entries(entries.drop_last(), now, window_ns);
        if stale(entries.last().1, now, window_ns) {
            r
        } else {
            r.push(entries.last())
        }
    }
}

// ── Lemmas on the model ──────────────────────────────────────────────────────

proof fn lemma_without_key(entries: Seq<(IpKey, Seq<u64>)>, key: IpKey)
    requires
        keys_distinct(entries),
    ensures
        keys_distinct(without_key(entries, key)),
        !has_key(without_key(entries, key), key),
        forall|k: IpKey| k != key ==> (has_key(without_key(entries, key), k) <==> has_key(entries, k)),
        has_key(entries, key) ==> without_key(entries, key).len() + 1 == entries.len(),
        !has_key(entries, key) ==> without_key(entries, key) == entries,
    decreases entries.len(),
{
    if entries.len() > 0 {
        let rest = entries.drop_first();
        assert(keys_distinct(rest)) by {
            assert forall|i: int, j: int| 0 <= i < j < rest.len() implies rest[i].0 != rest[j].0 by {
                assert(rest[i] == entries[i + 1]);
                assert(rest[j] == entries[j + 1]);
            }
        }
        lemma_without_key(rest, key);
        let w = without_key(rest, key);
        assert forall|k: IpKey| has_key(entries, k) <==> (entries[0].0 == k || has_key(rest, k)) by {
            if has_key(entries, k) {
                let i = choose|i: int| 0 <= i < entries.len() && entries[i].0 == k;
                if i > 0 {
                    assert(rest[i - 1] == entries[i]);
                }
            }
            if has_key(rest, k) {
                let i = choose|i: int| 0 <= i < rest.len() && rest[i].0 == k;
                assert(entries[i + 1] == rest[i]);
            }
        }
        if entries[0].0 == key {
            assert(!has_key(rest, key)) by {
                if has_key(rest, key) {
                    let i = choose|i: int| 0 <= i < rest.len() && rest[i].0 == key;
                    assert(entries[i + 1] == rest[i]);
                }
            }
        } else {
            let r = seq![entries[0]] + w;
            assert(r == without_key(entries, key));
            assert forall|k: IpKey| has_key(r, k) <==> (entries[0].0 == k || has_key(w, k)) by {
                if has_key(r, k) {
                    let i = choose|i: int| 0 <= i < r.len() && r[i].0 == k;
                    if i > 0 {
                        assert(w[i - 1] == r[i]);
                    }
                }
                if has_key(w, k) {
                    let i = choose|i: int| 0 <= i < w.len() && w[i].0 == k;
                    assert(r[i + 1] == w[i]);
                }
                if entries[0].0 == k {
                    assert(r[0].0 == k);
                }
            }
            assert(!has_key(w, entries[0].0)) by {
                if has_key(w, entries[0].0) {
                    assert(has_key(rest, entries[0].0));
                    let i = choose|i: int| 0 <= i < rest.len() && rest[i].0 == entries[0].0;
                    assert(entries[i + 1] == rest[i]);
                }
            }
            assert forall|i: int, j: int| 0 <= i < j < r.len() implies r[i].0 != r[j].0 by {
                if i == 0 {
                    assert(r[j] == w[j - 1]);
                    if r[j].0 == entries[0].0 {
                        assert(has_key(w, entries[0].0));
                    }
                } else {
                    assert(r[i] == w[i - 1]);
                    assert(r[j] == w[j - 1]);
                }
            }
            if !has_key(entries, key) {
                assert(r =~= entries) by {
                    assert forall|i: int| 0 <= i < r.len() implies r[i] == entries[i] by {
                        if i > 0 {
                            assert(r[i] == w[i - 1]);
                            assert(w[i - 1] == rest[i - 1]);
                        }
                    }
                }
            }
        }
    }
}

proof fn lemma_drop_last_keys(entries: Seq<(IpKey, Seq<u64>)>)
    requires
        entries.len() > 0,
    ensures
        forall|k: IpKey| has_key(entries.drop_last(), k) ==> has_key(entries, k),
        keys_distinct(entries) ==> keys_distinct(entries.drop_last()),
{
    let d = entries.drop_last();
    assert forall|k: IpKey| has_key(d, k) implies has_key(entries, k) by {
        let i = choose|i: int| 0 <= i < d.len() && d[i].0 == k;
        assert(entries[i] == d[i]);
    }
}

proof fn lemma_touched_distinct(entries: Seq<(IpKey, Seq<u64>)>, key: IpKey, value: Seq<u64>, cap: nat)
    requires
        keys_distinct(entries),
        entries.len() <= cap,
        cap > 0,
    ensures
        keys_distinct(touched(entries, key, value, cap)),
        touched(entries, key, value, cap).len() <= cap,
        touched(entries, key, value, cap)[0] == (key, value),
{
    lemma_without_key(entries, key);
    let rest = if has_key(entries, key) {
        without_key(entries, key)
    } else if entries.len() == cap {
        entries.drop_last()
    } else {
        entries
    };
    if !has_key(entries, key) && entries.len() == cap {
        lemma_drop_last_keys(entries);
    }
    assert(keys_distinct(rest));
    assert(!has_key(rest, key));
    let t = touched(entries, key, value, cap);
    assert(t == seq![(key, value)] + rest);
    assert forall|i: int, j: int| 0 <= i < j < t.len() implies t[i].0 != t[j].0 by {
        assert(t[j] == rest[j - 1]);
        if i == 0 {
            if t[j].0 == key {
                assert(has_key(rest, key));
            }
        } else {
            assert(t[i] == rest[i - 1]);
        }
    }
}

proof fn lemma_recent_push_now(hits: Seq<u64>, now: u64, window_ns: int)
    requires
        window_ns >= 0,
    ensures
        recent(hits.push(now), now, window_ns) == recent(hits, now, window_ns).push(now),
{
    assert(hits.push(now).drop_last() =~= hits);
}

proof fn lemma_newest_len(s: Seq<u64>, cap: nat)
    ensures
        newest(s, cap).len() <= cap,
        newest(s, cap).len() == if s.len() > cap { cap } else { s.len() },
{
}

proof fn lemma_recent_of_stale(hits: Seq<u64>, now: u64, window_ns: int)
    requires
        stale(hits, now, window_ns),
    ensures
        recent(hits, now, window_ns) == Seq::<u64>::empty(),
    decreases hits.len(),
{
    if hits.len() > 0 {
        let d = hits.drop_last();
        assert(stale(d, now, window_ns)) by {
            assert forall|i: int| 0 <= i < d.len() implies !in_window(#[trigger] d[i], now, window_ns) by {
                assert(d[i] == hits[i]);
            }
        }
        lemma_recent_of_stale(d, now, window_ns);
        assert(!in_window(hits[hits.len() - 1], now, window_ns));
    }
}

proof fn lemma_stale_later(hits: Seq<u64>, now_p: u64, now_r: u64, window_ns: int)
    requires
        stale(hits, now_p, window_ns),
        now_p <= now_r,
    ensures
        stale(hits, now_r, window_ns),
{
}

proof fn lemma_fresh_entries_keys(entries: Seq<(IpKey, Seq<u64>)>, now: u64, window_ns: int)
    ensures
        forall|k: IpKey| has_key(fresh_entries(entries, now, window_ns), k) ==> has_key(entries, k),
    decreases entries.len(),
{
    if entries.len() > 0 {
        let d = entries.drop_last();
        lemma_fresh_entries_keys(d, now, window_ns);
        lemma_drop_last_keys(entries);
        let r = fresh_entries(d, now, window_ns);
        assert forall|k: IpKey| has_key(fresh_entries(entries, now, window_ns), k) implies has_key(entries, k) by {
            let f = fresh_entries(entries, now, window_ns);
            let i = choose|i: int| 0 <= i < f.len() && f[i].0 == k;
            if !stale(entries.last().1, now, window_ns) && i == r.len() {
                assert(entries[entries.len() - 1].0 == k);
            } else {
                assert(f[i] == r[i]);
                assert(has_key(r, k));
            }
        }
    }
}

proof fn lemma_hits_for_append(a: Seq<(IpKey, Seq<u64>)>, x: (IpKey, Seq<u64>), key: IpKey)
    ensures
        hits_for(a.push(x), key) == if has_key(a, key) { hits_for(a, key) } else if x.0 == key { x.1 } else { Seq::<u64>::empty() },
    decreases a.len(),
{
    if a.len() == 0 {
        assert(a.push(x).drop_first() =~= Seq::<(IpKey, Seq<u64>)>::empty());
        assert(a.push(x)[0] == x);
        assert(!has_key(a, key));
        assert(hits_for(Seq::<(IpKey, Seq<u64>)>::empty(), key) == Seq::<u64>::empty());
    } else {
        let rest = a.drop_first();
        assert(a.push(x).drop_first() =~= rest.push(x));
        assert(a.push(x)[0] == a[0]);
        lemma_hits_for_append(rest, x, key);
        assert(has_key(a, key) <==> (a[0].0 == key || has_key(rest, key))) by {
            if has_key(a, key) {
                let i = choose|i: int| 0 <= i < a.len() && a[i].0 == key;
                if i > 0 {
                    assert(rest[i - 1] == a[i]);
                }
            }
            if has_key(rest, key) {
                let i = choose|i: int| 0 <= i < rest.len() && rest[i].0 == key;
                assert(a[i + 1] == rest[i]);
            }
        }
    }
}

proof fn lemma_hits_for_absent(a: Seq<(IpKey, Seq<u64>)>, key: IpKey)
    requires
        !has_key(a, key),
    ensures
        hits_for(a, key) == Seq::<u64>::empty(),
    decreases a.len(),
{
    if a.len() > 0 {
        let rest = a.drop_first();
        assert(!has_key(rest, key)) by {
            if has_key(rest, key) {
                let i = choose|i: int| 0 <= i < rest.len() && rest[i].0 == key;
                assert(a[i + 1] == rest[i]);
            }
        }
        assert(a[0].0 != key) by {
            if a[0].0 == key {
                assert(has_key(a, key));
            }
        }
        lemma_hits_for_absent(rest, key);
    }
}

/// The key's timestamps as kept by a purge at `now`: all of them when some is
/// inside the window, none otherwise.
proof fn lemma_fresh_entries_hits(entries: Seq<(IpKey, Seq<u64>)>, key: IpKey, now: u64, window_ns: int)
    requires
        keys_distinct(entries),
    ensures
        hits_for(fresh_entries(entries, now, window_ns), key) == if stale(hits_for(entries, key), now, window_ns) && has_key(entries, key) {
            Seq::<u64>::empty()
        } else {
            hits_for(entries, key)
        },
    decreases entries.len(),
{
    if entries.len() == 0 {
    } else {
        let d = entries.drop_last();
        let x = entries.last();
        lemma_drop_last_keys(entries);
        lemma_fresh_entries_hits(d, key, now, window_ns);
        lemma_fresh_entries_keys(d, now, window_ns);
        assert(entries =~= d.push(x));
        lemma_hits_for_append(d, x, key);
        let r = fresh_entries(d, now, window_ns);
        assert(has_key(entries, key) <==> (has_key(d, key) || x.0 == key)) by {
            if has_key(entries, key) {
                let i = choose|i: int| 0 <= i < entries.len() && entries[i].0 == key;
                if i < d.len() {
                    assert(d[i] == entries[i]);
                }
            }
            if has_key(d, key) {
                let i = choose|i: int| 0 <= i < d.len() && d[i].0 == key;
                assert(entries[i] == d[i]);
            }
            if x.0 == key {
                assert(entries[entries.len() - 1].0 == key);
            }
        }
        if x.0 == key {
            assert(!has_key(d, key)) by {
                if has_key(d, key) {
                    let i = choose|i: int| 0 <= i < d.len() && d[i].0 == key;
                    assert(entries[i] == d[i]);
                    assert(entries[i].0 == entries[entries.len() - 1].0);
                }
            }
            assert(!has_key(r, key));
            if stale(x.1, now, window_ns) {
                lemma_hits_for_absent(r, key);
            } else {
                lemma_hits_for_append(r, x, key);
            }
        } else {
            if !stale(x.1, now, window_ns) {
                lemma_hits_for_append(r, x, key);
                if !has_key(r, key) {
                    lemma_hits_for_absent(r, key);
                }
            }
            if !has_key(d, key) {
                lemma_hits_for_absent(d, key);
            }
        }
    }
}

// ── The tracker ──────────────────────────────────────────────────────────────

/// Per-IP connection history with a sliding window.
pub struct AttackTracker {
    history: LruCache<IpKey, Vec<u64>>,
    threshold: usize,
    window_ns: u128,
    origin: std::time::Instant,
}

impl AttackTracker {
    /// The tracked IPs with their timestamps (nanoseconds since the tracker
    /// was made), most recently seen first.
    pub closed spec fn entries(&self) -> Seq<(IpKey, Seq<u64>)> {
        lru_entries(self.history)
    }

    /// The number of hits at which an IP counts as suspicious.
    pub closed spec fn threshold_hits(&self) -> nat {
        self.threshold as nat
    }

    /// The width of the sliding window in nanoseconds.
    pub closed spec fn window_nanos(&self) -> int {
        self.window_ns as int
    }

    /// The tracker's invariant: keys are distinct, at most `MAX_TRACKED_IPS`
    /// of them, in a cache of that capacity.
    pub closed spec fn wf(&self) -> bool {
        &&& keys_distinct(lru_entries(self.history))
        &&& lru_entries(self.history).len() <= MAX_TRACKED_IPS
        &&& lru_capacity(self.history) == MAX_TRACKED_IPS
        &&& self.window_ns <= MAX_WINDOW_NS
    }

    /// A tracker's threshold fits a `usize` and its window is between zero
    /// and `MAX_WINDOW_NS` nanoseconds.
    pub proof fn lemma_bounds(&self)
        requires
            self.wf(),
        ensures
            self.threshold_hits() <= usize::MAX,
            0 <= self.window_nanos() <= MAX_WINDOW_NS,
            self.entries().len() <= MAX_TRACKED_IPS,
    {
    }

    /// A tracker with no history.
    pub fn new(threshold: usize, window_secs: u64) -> (t: Self)
        ensures
            t.wf(),
            t.threshold_hits() <= usize::MAX,
            0 <= t.window_nanos() <= MAX_WINDOW_NS,
            t.entries() == Seq::<(IpKey, Seq<u64>)>::empty(),
            t.threshold_hits() == threshold,
            t.window_nanos() == window_secs * 1000000000,
    {
        let window_ns = (window_secs as u128) * NANOS_PER_SEC;
        AttackTracker {
            history: history_new(MAX_TRACKED_IPS),
            threshold,
            window_ns,
            origin: instant_now(),
        }
    }

    /// Records a connection from `addr` at time `now` (nanoseconds since the
    /// tracker was made) and says whether the IP is now suspicious: the IP's
    /// timestamps get `now` appended, lose those outside the window and keep
    /// at most `4 * threshold` newest; the IP becomes the most recently seen
    /// (evicting the least recently seen IP when the cache is full and the IP
    /// is new); the result is whether at least `threshold` timestamps remain.
    pub fn record_and_check_at(&mut self, addr: PeerAddr, now: u64) -> (suspicious: bool)
        requires
            old(self).wf(),
        ensures
            final(self).wf(),
            final(self).threshold_hits() == old(self).threshold_hits(),
            final(self).window_nanos() == old(self).window_nanos(),
            final(self).entries() == touched(
                old(self).entries(),
                addr.ip.spec_key(),
                updated_hits(
                    hits_for(old(self).entries(), addr.ip.spec_key()),
                    now,
                    old(self).window_nanos(),
                    hit_cap(old(self).threshold_hits()),
                ),
                MAX_TRACKED_IPS as nat,
            ),
            suspicious == (updated_hits(
                hits_for(old(self).entries(), addr.ip.spec_key()),
                now,
                old(self).window_nanos(),
                hit_cap(old(self).threshold_hits()),
            ).len() >= old(self).threshold_hits()),
    {
        let key = addr.ip.key();
        let cap = hit_cap_of(self.threshold);
        let window_ns = self.window_ns;
        let threshold = self.threshold;
        let ghost old_entries = lru_entries(self.history);
        let entry = history_get_or_insert(&mut self.history, key);
        let fresh = updated_hits_of(entry, now, window_ns, cap);
        let n = fresh.len();
        *entry = fresh;
        proof {
            lemma_touched_distinct(old_entries, key, updated_hits(hits_for(old_entries, key), now, window_ns as int, cap as nat), MAX_TRACKED_IPS as nat);
        }
        n >= threshold
    }

    /// The tracker's clock: nanoseconds since it was made. Nothing is promised
    /// of the value beyond what the machine's monotonic clock gives.
    pub fn now_nanos(&self) -> u64 {
        elapsed_nanos(&self.origin)
    }

    /// Records a connection from `addr` now; see `record_and_check_at`.
    pub fn record_and_check(&mut self, addr: PeerAddr) -> (suspicious: bool)
        requires
            old(self).wf(),
        ensures
            final(self).wf(),
            final(self).threshold_hits() == old(self).threshold_hits(),
            final(self).window_nanos() == old(self).window_nanos(),
            exists|now: u64| {
                &&& final(self).entries() == touched(
                    old(self).entries(),
                    addr.ip.spec_key(),
                    updated_hits(hits_for(old(self).entries(), addr.ip.spec_key()), now, old(self).window_nanos(), hit_cap(old(self).threshold_hits())),
                    MAX_TRACKED_IPS as nat,
                )
                &&& suspicious == (updated_hits(hits_for(old(self).entries(), addr.ip.spec_key()), now, old(self).window_nanos(), hit_cap(old(self).threshold_hits())).len() >= old(self).threshold_hits())
            },
    {
        let now = elapsed_nanos(&self.origin);
        self.record_and_check_at(addr, now)
    }

    /// Drops every IP of which no timestamp is inside the window ending at
    /// `now`; the others keep their order and timestamps.
    pub fn purge_all_old_at(&mut self, now: u64)
        requires
            old(self).wf(),
        ensures
            final(self).wf(),
            final(self).threshold_hits() == old(self).threshold_hits(),
            final(self).window_nanos() == old(self).window_nanos(),
            final(self).entries() == fresh_entries(old(self).entries(), now, old(self).window_nanos()),
            final(self).entries().len() <= old(self).entries().len(),
    {
        proof {
            law_purge_settles(lru_entries(self.history), now, self.window_ns as int);
        }
        let keys = history_keys(&self.history);
        let ghost e0 = lru_entries(self.history);
        let window_ns = self.window_ns;
        let threshold = self.threshold;
        let mut i: usize = 0;
        proof {
            assert(fresh_entries(e0.take(0), now, window_ns as int) =~= Seq::<(IpKey, Seq<u64>)>::empty());
            assert(e0.skip(0) =~= e0);
        }
        while i < keys.len()
            invariant
                keys@ == e0.map_values(|e: (IpKey, Seq<u64>)| e.0),
                i <= keys@.len(),
                keys_distinct(e0),
                e0.len() <= MAX_TRACKED_IPS,
                window_ns == self.window_ns,
                threshold == self.threshold,
                self.wf(),
                lru_entries(self.history) == fresh_entries(e0.take(i as int), now, window_ns as int) + e0.skip(i as int),
            decreases keys@.len() - i,
        {
            let key = keys[i];
            let ghost cur = lru_entries(self.history);
            let ghost f = fresh_entries(e0.take(i as int), now, window_ns as int);
            let ghost x = e0[i as int];
            let ghost tail = e0.skip(i as int + 1);
            proof {
                assert(key == x.0);
                assert(e0.skip(i as int) =~= seq![x] + tail);
                assert(cur =~= f + seq![x] + tail);
                assert(e0.take(i as int + 1) =~= e0.take(i as int).push(x));
                assert(e0.take(i as int + 1).drop_last() =~= e0.take(i as int));
                lemma_fresh_entries_keys(e0.take(i as int), now, window_ns as int);
                assert(!has_key(f, key)) by {
                    if has_key(f, key) {
                        assert(has_key(e0.take(i as int), key));
                        let j = choose|j: int| 0 <= j < e0.take(i as int).len() && e0.take(i as int)[j].0 == key;
                        assert(e0[j].0 == e0[i as int].0);
                    }
                }
                assert(!has_key(tail, key)) by {
                    if has_key(tail, key) {
                        let j = choose|j: int| 0 <= j < tail.len() && tail[j].0 == key;
                        assert(tail[j] == e0[i + 1 + j]);
                    }
                }
                lemma_without_concat(f, x, tail);
                lemma_hits_for_front(f, x, tail);
            }
            let found = history_peek(&self.history, &key);
            let is_stale = match found {
                Some(hits) => all_stale(hits, now, window_ns),
                None => false,
            };
            if is_stale {
                let _ = history_pop(&mut self.history, &key);
                proof {
                    lemma_without_key(cur, key);
                    assert(lru_entries(self.history) =~= fresh_entries(e0.take(i as int + 1), now, window_ns as int) + e0.skip(i as int + 1));
                }
            } else {
                proof {
                    assert(has_key(cur, key)) by {
                        assert(cur[f.len() as int] == x);
                    }
                    assert(lru_entries(self.history) =~= fresh_entries(e0.take(i as int + 1), now, window_ns as int) + e0.skip(i as int + 1));
                }
            }
            i = i + 1;
        }
        proof {
            assert(e0.take(keys@.len() as int) =~= e0);
            assert(e0.skip(keys@.len() as int) =~= Seq::<(IpKey, Seq<u64>)>::empty());
            assert(lru_entries(self.history) =~= fresh_entries(e0, now, window_ns as int));
        }
    }

    /// Drops every IP of which no timestamp is inside the window ending now;
    /// see `purge_all_old_at`.
    pub fn purge_all_old(&mut self)
        requires
            old(self).wf(),
        ensures
            final(self).wf(),
            final(self).threshold_hits() == old(self).threshold_hits(),
            final(self).window_nanos() == old(self).window_nanos(),
            exists|now: u64| final(self).entries() == fresh_entries(old(self).entries(), now, old(self).window_nanos()),
            final(self).entries().len() <= old(self).entries().len(),
    {
        let now = elapsed_nanos(&self.origin);
        self.purge_all_old_at(now)
    }

    /// The number of IPs currently tracked.
    pub fn tracked_ip_count(&self) -> (n: usize)
        requires
            self.wf(),
        ensures
            n == self.entries().len(),
            n <= MAX_TRACKED_IPS,
    {
        history_len(&self.history)
    }
}

fn hit_cap_of(threshold: usize) -> (cap: usize)
    ensures
        cap == hit_cap(threshold as nat),
{
    match threshold.checked_mul(4) {
        Some(c) => c,
        None => usize::MAX,
    }
}

fn all_stale(hits: &Vec<u64>, now: u64, window_ns: u128) -> (b: bool)
    requires
        window_ns <= MAX_WINDOW_NS,
    ensures
        b == stale(hits@, now, window_ns as int),
{
    let mut i: usize = 0;
    while i < hits.len()
        invariant
            i <= hits@.len(),
            window_ns <= MAX_WINDOW_NS,
            forall|j: int| 0 <= j < i ==> !in_window(#[trigger] hits@[j], now, window_ns as int),
        decreases hits@.len() - i,
    {
        if (hits[i] as u128) + window_ns >= (now as u128) {
            assert(in_window(hits@[i as int], now, window_ns as int));
            return false;
        }
        i = i + 1;
    }
    true
}

fn updated_hits_of(prior: &Vec<u64>, now: u64, window_ns: u128, cap: usize) -> (out: Vec<u64>)
    requires
        window_ns <= MAX_WINDOW_NS,
    ensures
        out@ == updated_hits(prior@, now, window_ns as int, cap as nat),
{
    let mut kept: Vec<u64> = Vec::new();
    let mut i: usize = 0;
    while i < prior.len()
        invariant
            i <= prior@.len(),
            window_ns <= MAX_WINDOW_NS,
            kept@ == recent(prior@.take(i as int), now, window_ns as int),
        decreases prior@.len() - i,
    {
        let t = prior[i];
        proof {
            assert(prior@.take(i as int + 1).drop_last() =~= prior@.take(i as int));
        }
        if (t as u128) + window_ns >= (now as u128) {
            kept.push(t);
        }
        i = i + 1;
    }
    proof {
        assert(prior@.take(prior@.len() as int) =~= prior@);
        lemma_recent_push_now(prior@, now, window_ns as int);
    }
    kept.push(now);
    let len = kept.len();
    if len > cap {
        let mut out: Vec<u64> = Vec::new();
        let mut j: usize = len - cap;
        while j < len
            invariant
                len == kept@.len(),
                len > cap,
                len - cap <= j <= len,
                out@ == kept@.subrange(len - cap, j as int),
            decreases len - j,
        {
            out.push(kept[j]);
            j = j + 1;
            proof {
                assert(out@ =~= kept@.subrange(len - cap, j as int));
            }
        }
        out
    } else {
        kept
    }
}

proof fn lemma_without_concat(f: Seq<(IpKey, Seq<u64>)>, x: (IpKey, Seq<u64>), tail: Seq<(IpKey, Seq<u64>)>)
    requires
        !has_key(f, x.0),
        !has_key(tail, x.0),
    ensures
        without_key(f + seq![x] + tail, x.0) == f + tail,
    decreases f.len(),
{
    if f.len() == 0 {
        assert(f + seq![x] + tail =~= seq![x] + tail);
        assert((seq![x] + tail).drop_first() =~= tail);
        lemma_without_absent(tail, x.0);
        assert(f + tail =~= tail);
    } else {
        let rest = f.drop_first();
        assert(!has_key(rest, x.0)) by {
            if has_key(rest, x.0) {
                let i = choose|i: int| 0 <= i < rest.len() && rest[i].0 == x.0;
                assert(f[i + 1] == rest[i]);
            }
        }
        assert(f[0].0 != x.0) by {
            if f[0].0 == x.0 {
                assert(has_key(f, x.0));
            }
        }
        lemma_without_concat(rest, x, tail);
        assert((f + seq![x] + tail).drop_first() =~= rest + seq![x] + tail);
        assert((f + seq![x] + tail)[0] == f[0]);
        assert(seq![f[0]] + (rest + tail) =~= f + tail);
    }
}

proof fn lemma_without_absent(s: Seq<(IpKey, Seq<u64>)>, key: IpKey)
    requires
        !has_key(s, key),
    ensures
        without_key(s, key) == s,
    decreases s.len(),
{
    if s.len() > 0 {
        let rest = s.drop_first();
        assert(!has_key(rest, key)) by {
            if has_key(rest, key) {
                let i = choose|i: int| 0 <= i < rest.len() && rest[i].0 == key;
                assert(s[i + 1] == rest[i]);
            }
        }
        assert(s[0].0 != key) by {
            if s[0].0 == key {
                assert(has_key(s, key));
            }
        }
        lemma_without_absent(rest, key);
        assert(seq![s[0]] + rest =~= s);
    }
}

proof fn lemma_hits_for_front(f: Seq<(IpKey, Seq<u64>)>, x: (IpKey, Seq<u64>), tail: Seq<(IpKey, Seq<u64>)>)
    requires
        !has_key(f, x.0),
    ensures
        hits_for(f + seq![x] + tail, x.0) == x.1,
        has_key(f + seq![x] + tail, x.0),
    decreases f.len(),
{
    let s = f + seq![x] + tail;
    assert(s[f.len() as int] == x);
    if f.len() == 0 {
        assert(s[0] == x);
    } else {
        let rest = f.drop_first();
        assert(!has_key(rest, x.0)) by {
            if has_key(rest, x.0) {
                let i = choose|i: int| 0 <= i < rest.len() && rest[i].0 == x.0;
                assert(f[i + 1] == rest[i]);
            }
        }
        assert(f[0].0 != x.0) by {
            if f[0].0 == x.0 {
                assert(has_key(f, x.0));
            }
        }
        lemma_hits_for_front(rest, x, tail);
        assert(s.drop_first() =~= rest + seq![x] + tail);
    }
}

// ── Laws ─────────────────────────────────────────────────────────────────────

/// A purge never changes what a later connection is told: for any IP and any
/// purge at `now_p` followed by a connection at `now_r >= now_p`, the IP's
/// timestamps after the connection are the same as without the purge, and
/// so is the verdict.
pub proof fn law_purge_keeps_verdict(
    entries: Seq<(IpKey, Seq<u64>)>,
    key: IpKey,
    now_p: u64,
    now_r: u64,
    window_ns: int,
    cap: nat,
)
    requires
        keys_distinct(entries),
        now_p <= now_r,
        window_ns >= 0,
    ensures
        updated_hits(hits_for(fresh_entries(entries, now_p, window_ns), key), now_r, window_ns, cap)
            == updated_hits(hits_for(entries, key), now_r, window_ns, cap),
{
    lemma_fresh_entries_hits(entries, key, now_p, window_ns);
    let h = hits_for(entries, key);
    if stale(h, now_p, window_ns) && has_key(entries, key) {
        lemma_stale_later(h, now_p, now_r, window_ns);
        lemma_recent_of_stale(h, now_r, window_ns);
        lemma_recent_push_now(h, now_r, window_ns);
        lemma_recent_push_now(Seq::<u64>::empty(), now_r, window_ns);
        assert(recent(Seq::<u64>::empty(), now_r, window_ns) =~= Seq::<u64>::empty());
    }
}

/// A purge settles at once and never adds an IP: purging again at the same
/// time changes nothing, and no more IPs are tracked after a purge than
/// before it.
pub proof fn law_purge_settles(entries: Seq<(IpKey, Seq<u64>)>, now: u64, window_ns: int)
    ensures
        fresh_entries(fresh_entries(entries, now, window_ns), now, window_ns) == fresh_entries(entries, now, window_ns),
        fresh_entries(entries, now, window_ns).len() <= entries.len(),
    decreases entries.len(),
{
    if entries.len() > 0 {
        let d = entries.drop_last();
        let x = entries.last();
        law_purge_settles(d, now, window_ns);
        let r = fresh_entries(d, now, window_ns);
        if !stale(x.1, now, window_ns) {
            assert(r.push(x).drop_last() =~= r);
            assert(r.push(x).last() == x);
        }
    }
}

/// An IP's stored timestamps never exceed the per-IP bound: after a
/// connection, at most `4 * threshold` (saturating) remain, the newest of
/// those inside the window, and the one just recorded is among them
/// whenever the bound is not zero.
pub proof fn law_hits_bounded(prior: Seq<u64>, now: u64, window_ns: int, threshold: nat)
    requires
        window_ns >= 0,
    ensures
        updated_hits(prior, now, window_ns, hit_cap(threshold)).len() <= hit_cap(threshold),
        hit_cap(threshold) > 0 ==> updated_hits(prior, now, window_ns, hit_cap(threshold)).last() == now,
{
    lemma_recent_push_now(prior, now, window_ns);
    lemma_newest_len(recent(prior.push(now), now, window_ns), hit_cap(threshold));
}

/// After a connection is recorded for `key`, the key is the most recently
/// seen and its stored timestamps are exactly the ones the record computed.
pub proof fn law_record_then_lookup(entries: Seq<(IpKey, Seq<u64>)>, key: IpKey, value: Seq<u64>, cap: nat)
    ensures
        touched(entries, key, value, cap)[0] == (key, value),
        hits_for(touched(entries, key, value, cap), key) == value,
{
    let t = touched(entries, key, value, cap);
    assert(t[0] == (key, value));
}

/// The timestamps an IP holds after connections at `times`, in order,
/// starting from `prior`.
pub open spec fn replay(prior: Seq<u64>, times: Seq<u64>, window_ns: int, cap: nat) -> Seq<u64>
    decreases times.len(),
{
    if times.len() == 0 {
        prior
    } else {
        updated_hits(replay(prior, times.drop_last(), window_ns, cap), times.last(), window_ns, cap)
    }
}

proof fn lemma_recent_concat(y: Seq<u64>, x: Seq<u64>, now: u64, window_ns: int)
    requires
        forall|i: int| 0 <= i < x.len() ==> in_window(#[trigger] x[i], now, window_ns),
    ensures
        recent(y + x, now, window_ns) == recent(y, now, window_ns) + x,
    decreases x.len(),
{
    if x.len() == 0 {
        assert(y + x =~= y);
        assert(recent(y, now, window_ns) + x =~= recent(y, now, window_ns));
    } else {
        let xd = x.drop_last();
        assert forall|i: int| 0 <= i < xd.len() implies in_window(#[trigger] xd[i], now, window_ns) by {
            assert(xd[i] == x[i]);
        }
        lemma_recent_concat(y, xd, now, window_ns);
        assert((y + x).drop_last() =~= y + xd);
        assert((y + x).last() == x.last());
        assert(in_window(x[x.len() - 1], now, window_ns));
        assert(recent(y, now, window_ns) + xd.push(x.last()) =~= recent(y, now, window_ns) + x);
    }
}

pub open spec fn min_nat(a: nat, b: nat) -> nat {
    if a <= b { a } else { b }
}

proof fn lemma_replay_suffix(prior: Seq<u64>, times: Seq<u64>, window_ns: int, cap: nat)
    requires
        forall|i: int, j: int| 0 <= i <= j < times.len() ==> times[i] <= times[j],
        times.len() > 0 ==> times.last() <= times[0] + window_ns,
        window_ns >= 0,
    ensures
        replay(prior, times, window_ns, cap).len() >= min_nat(times.len(), cap),
        replay(prior, times, window_ns, cap).subrange(
            replay(prior, times, window_ns, cap).len() - min_nat(times.len(), cap),
            replay(prior, times, window_ns, cap).len() as int,
        ) == times.subrange(times.len() - min_nat(times.len(), cap), times.len() as int),
    decreases times.len(),
{
    let n = times.len();
    if n == 0 {
        let r = replay(prior, times, window_ns, cap);
        assert(r.subrange(r.len() as int, r.len() as int) =~= times.subrange(0, 0));
    } else {
        let td = times.drop_last();
        let now = times.last();
        assert forall|i: int, j: int| 0 <= i <= j < td.len() implies td[i] <= td[j] by {
            assert(td[i] == times[i]);
            assert(td[j] == times[j]);
        }
        if td.len() > 0 {
            assert(td.last() == times[n - 2]);
            assert(times[n - 2] <= times[n - 1]);
            assert(td[0] == times[0]);
        }
        lemma_replay_suffix(prior, td, window_ns, cap);
        let r = replay(prior, td, window_ns, cap);
        let m1 = min_nat(td.len(), cap);
        let suf = times.subrange(td.len() - m1, td.len() as int);
        assert(r.subrange(r.len() - m1, r.len() as int) == suf);
        let y = r.subrange(0, r.len() - m1);
        assert(r =~= y + suf);
        let x = suf.push(now);
        assert forall|i: int| 0 <= i < x.len() implies in_window(#[trigger] x[i], now, window_ns) by {
            if i < suf.len() {
                let k = td.len() - m1 + i;
                assert(x[i] == times[k]);
                assert(times[0] <= times[k]);
            } else {
                assert(x[i] == now);
            }
        }
        assert(r.push(now) =~= y + x);
        lemma_recent_concat(y, x, now, window_ns);
        let rec = recent(r.push(now), now, window_ns);
        assert(rec == recent(y, now, window_ns) + x);
        let m = min_nat(n, cap);
        let out = newest(rec, cap);
        assert(out == replay(prior, times, window_ns, cap));
        assert(x =~= times.subrange(td.len() - m1, n as int));
        // the last m elements of rec are the last m of times
        assert(m <= x.len());
        let rs = rec.subrange(rec.len() - m, rec.len() as int);
        let ts = times.subrange(n - m, n as int);
        assert(rs =~= ts) by {
            assert forall|i: int| 0 <= i < m implies #[trigger] rs[i] == ts[i] by {
                let k = rec.len() - m + i;
                let xi = x.len() - m + i;
                assert(rec[k] == x[xi]);
                assert(x[xi] == times[td.len() - m1 + xi]);
            }
        }
        if rec.len() > cap {
            assert(m <= cap);
            assert(out =~= rec.subrange(rec.len() - cap, rec.len() as int));
            assert(out.subrange(out.len() - m, out.len() as int) =~= rec.subrange(rec.len() - m, rec.len() as int));
        } else {
            assert(out == rec);
        }
    }
}

/// A burst is detected: when an IP connects `threshold` (at least one) times
/// or more, at non-decreasing times all within one window, whatever it held
/// before, the last connection finds at least `threshold` timestamps and so
/// counts as suspicious.
pub proof fn law_burst_detected(prior: Seq<u64>, times: Seq<u64>, window_ns: int, threshold: nat)
    requires
        threshold >= 1,
        threshold <= usize::MAX,
        times.len() >= threshold,
        forall|i: int, j: int| 0 <= i <= j < times.len() ==> times[i] <= times[j],
        times.last() <= times[0] + window_ns,
        window_ns >= 0,
    ensures
        replay(prior, times, window_ns, hit_cap(threshold)).len() >= threshold,
{
    lemma_replay_suffix(prior, times, window_ns, hit_cap(threshold));
}

} // verus!

verus! {

// ── A run of connections ─────────────────────────────────────────────────────

/// The entries of a new tracker after it records `events` in order, each a
/// connection from the IP with the given key at the given time, as
/// `record_and_check_at` records one.
pub open spec fn run(events: Seq<(IpKey, u64)>, window_ns: int, cap: nat) -> Seq<(IpKey, Seq<u64>)>
    decreases events.len(),
{
    if events.len() == 0 {
        Seq::empty()
    } else {
        let prior = run(events.drop_last(), window_ns, cap);
        let key = events.last().0;
        touched(prior, key, updated_hits(hits_for(prior, key), events.last().1, window_ns, cap), MAX_TRACKED_IPS as nat)
    }
}

/// What the last call of a run answers: whether the last IP holds at least
/// `threshold` timestamps once its connection is recorded.
pub open spec fn last_verdict(events: Seq<(IpKey, u64)>, window_ns: int, threshold: nat) -> bool {
    let prior = run(events.drop_last(), window_ns, hit_cap(threshold));
    updated_hits(hits_for(prior, events.last().0), events.last().1, window_ns, hit_cap(threshold)).len() >= threshold
}

/// The IPs that connect in a run.
pub open spec fn seen(events: Seq<(IpKey, u64)>) -> Set<IpKey>
    decreases events.len(),
{
    if events.len() == 0 {
        Set::empty()
    } else {
        seen(events.drop_last()).insert(events.last().0)
    }
}

/// The times at which the IP with `key` connects in a run, in order.
pub open spec fn times_of(events: Seq<(IpKey, u64)>, key: IpKey) -> Seq<u64>
    decreases events.len(),
{
    if events.len() == 0 {
        Seq::empty()
    } else {
        let r = times_of(events.drop_last(), key);
        if events.last().0 == key {
            r.push(events.last().1)
        } else {
            r
        }
    }
}

/// The timestamps never decrease.
pub open spec fn sorted_times(s: Seq<u64>) -> bool {
    forall|i: int, j: int| 0 <= i <= j < s.len() ==> s[i] <= s[j]
}

/// The connection times of a run never decrease.
pub open spec fn times_ordered(events: Seq<(IpKey, u64)>) -> bool {
    forall|i: int, j: int| 0 <= i <= j < events.len() ==> events[i].1 <= events[j].1
}

proof fn lemma_seen_finite(events: Seq<(IpKey, u64)>)
    ensures
        seen(events).finite(),
    decreases events.len(),
{
    if events.len() > 0 {
        lemma_seen_finite(events.drop_last());
    }
}

proof fn lemma_has_key_front(x: (IpKey, Seq<u64>), r: Seq<(IpKey, Seq<u64>)>, k: IpKey)
    ensures
        has_key(seq![x] + r, k) <==> (x.0 == k || has_key(r, k)),
{
    let s = seq![x] + r;
    if has_key(s, k) {
        let i = choose|i: int| 0 <= i < s.len() && s[i].0 == k;
        if i > 0 {
            assert(s[i] == r[i - 1]);
        }
    }
    if has_key(r, k) {
        let i = choose|i: int| 0 <= i < r.len() && r[i].0 == k;
        assert(s[i + 1] == r[i]);
    }
    if x.0 == k {
        assert(s[0] == x);
    }
}

proof fn lemma_hits_for_front_other(x: (IpKey, Seq<u64>), r: Seq<(IpKey, Seq<u64>)>, k: IpKey)
    requires
        x.0 != k,
    ensures
        hits_for(seq![x] + r, k) == hits_for(r, k),
{
    let s = seq![x] + r;
    assert(s[0] == x);
    assert(s.drop_first() =~= r);
}

proof fn lemma_hits_for_without(e: Seq<(IpKey, Seq<u64>)>, gone: IpKey, k: IpKey)
    requires
        gone != k,
    ensures
        hits_for(without_key(e, gone), k) == hits_for(e, k),
    decreases e.len(),
{
    if e.len() > 0 {
        let rest = e.drop_first();
        lemma_hits_for_without(rest, gone, k);
        if e[0].0 != gone {
            let w = without_key(rest, gone);
            let s = seq![e[0]] + w;
            assert(s[0] == e[0]);
            if e[0].0 != k {
                lemma_hits_for_front_other(e[0], w, k);
            }
        }
    }
}

/// Recording `key` leaves every other IP's timestamps as they were, when no
/// IP is evicted.
proof fn lemma_touched_other(e: Seq<(IpKey, Seq<u64>)>, key: IpKey, value: Seq<u64>, cap: nat, k: IpKey)
    requires
        k != key,
        has_key(e, key) || e.len() < cap,
    ensures
        hits_for(touched(e, key, value, cap), k) == hits_for(e, k),
{
    let rest = if has_key(e, key) { without_key(e, key) } else { e };
    assert(touched(e, key, value, cap) == seq![(key, value)] + rest);
    lemma_hits_for_front_other((key, value), rest, k);
    if has_key(e, key) {
        lemma_hits_for_without(e, key, k);
    }
}

/// What a run keeps: distinct keys, at most `MAX_TRACKED_IPS`, all of them
/// seen; every seen IP is kept while the cache is not full, or while no more
/// than `MAX_TRACKED_IPS` IPs are seen; a full cache means at least that many
/// were seen.
proof fn lemma_run_inv(events: Seq<(IpKey, u64)>, window_ns: int, cap: nat)
    ensures
        seen(events).finite(),
        keys_distinct(run(events, window_ns, cap)),
        run(events, window_ns, cap).len() <= MAX_TRACKED_IPS,
        forall|k: IpKey| has_key(run(events, window_ns, cap), k) ==> seen(events).contains(k),
        run(events, window_ns, cap).len() < MAX_TRACKED_IPS ==> run(events, window_ns, cap).len() == seen(events).len(),
        seen(events).len() <= MAX_TRACKED_IPS || run(events, window_ns, cap).len() < MAX_TRACKED_IPS ==> {
            &&& run(events, window_ns, cap).len() == seen(events).len()
            &&& forall|k: IpKey| seen(events).contains(k) ==> has_key(run(events, window_ns, cap), k)
        },
        run(events, window_ns, cap).len() == MAX_TRACKED_IPS ==> seen(events).len() >= MAX_TRACKED_IPS,
    decreases events.len(),
{
    lemma_seen_finite(events);
    if events.len() > 0 {
        let d = events.drop_last();
        let key = events.last().0;
        let prior = run(d, window_ns, cap);
        let value = updated_hits(hits_for(prior, key), events.last().1, window_ns, cap);
        let t = run(events, window_ns, cap);
        let sd = seen(d);
        let se = seen(events);
        lemma_run_inv(d, window_ns, cap);
        lemma_touched_distinct(prior, key, value, MAX_TRACKED_IPS as nat);
        lemma_without_key(prior, key);
        assert(t == touched(prior, key, value, MAX_TRACKED_IPS as nat));
        assert(se == sd.insert(key));
        if has_key(prior, key) {
            let rest = without_key(prior, key);
            assert(t == seq![(key, value)] + rest);
            assert(sd.contains(key));
            assert(se.len() == sd.len());
            assert forall|k: IpKey| has_key(t, k) <==> has_key(prior, k) by {
                lemma_has_key_front((key, value), rest, k);
            }
        } else if prior.len() < MAX_TRACKED_IPS {
            assert(t == seq![(key, value)] + prior);
            assert(!sd.contains(key));
            assert(se.len() == sd.len() + 1);
            assert forall|k: IpKey| has_key(t, k) <==> (k == key || has_key(prior, k)) by {
                lemma_has_key_front((key, value), prior, k);
            }
        } else {
            let rest = prior.drop_last();
            assert(t == seq![(key, value)] + rest);
            lemma_drop_last_keys(prior);
            assert(se.len() >= sd.len());
            assert forall|k: IpKey| has_key(t, k) implies se.contains(k) by {
                lemma_has_key_front((key, value), rest, k);
            }
            if se.len() <= MAX_TRACKED_IPS {
                assert(sd.contains(key));
            }
        }
    }
}

/// While no more than `MAX_TRACKED_IPS` IPs are seen, an IP holds what its
/// own connections alone leave: the timestamps of no other IP matter.
proof fn lemma_run_hits(events: Seq<(IpKey, u64)>, window_ns: int, cap: nat, k: IpKey)
    requires
        seen(events).len() <= MAX_TRACKED_IPS,
    ensures
        hits_for(run(events, window_ns, cap), k) == replay(Seq::empty(), times_of(events, k), window_ns, cap),
    decreases events.len(),
{
    if events.len() > 0 {
        let d = events.drop_last();
        let key = events.last().0;
        let now = events.last().1;
        let prior = run(d, window_ns, cap);
        let value = updated_hits(hits_for(prior, key), now, window_ns, cap);
        lemma_seen_finite(d);
        assert(seen(events) == seen(d).insert(key));
        lemma_run_inv(d, window_ns, cap);
        lemma_run_hits(d, window_ns, cap, k);
        if k == key {
            law_record_then_lookup(prior, key, value, MAX_TRACKED_IPS as nat);
            let tk = times_of(events, k);
            assert(tk == times_of(d, k).push(now));
            assert(tk.drop_last() =~= times_of(d, k));
        } else {
            if !has_key(prior, key) {
                assert(!seen(d).contains(key));
            }
            lemma_touched_other(prior, key, value, MAX_TRACKED_IPS as nat, k);
        }
    }
}


/// Within a window the timestamps kept are a suffix: when the `j`th and
/// every later timestamp are inside and the earlier ones outside, those from
/// the `j`th on are kept.
proof fn lemma_recent_cut(u: Seq<u64>, j: int, now: u64, window_ns: int)
    requires
        0 <= j <= u.len(),
        forall|i: int| 0 <= i < u.len() ==> (in_window(#[trigger] u[i], now, window_ns) <==> i >= j),
    ensures
        recent(u, now, window_ns) == u.subrange(j, u.len() as int),
    decreases u.len(),
{
    if u.len() > 0 {
        let d = u.drop_last();
        let jd = if j == u.len() { d.len() as int } else { j };
        assert forall|i: int| 0 <= i < d.len() implies (in_window(#[trigger] d[i], now, window_ns) <==> i >= jd) by {
            assert(d[i] == u[i]);
        }
        lemma_recent_cut(d, jd, now, window_ns);
        if j == u.len() {
            assert(!in_window(u[u.len() - 1], now, window_ns));
            assert(u.subrange(j, u.len() as int) =~= Seq::<u64>::empty());
        } else {
            assert(in_window(u[u.len() - 1], now, window_ns));
            assert(d.subrange(j, d.len() as int).push(u.last()) =~= u.subrange(j, u.len() as int));
        }
    }
}

/// The timestamps from the `j`th on are inside the window, the earlier ones outside.
pub open spec fn cut_at(s: Seq<u64>, j: int, now: u64, window_ns: int) -> bool {
    &&& 0 <= j <= s.len()
    &&& forall|i: int| 0 <= i < s.len() ==> (in_window(#[trigger] s[i], now, window_ns) <==> i >= j)
}

/// In non-decreasing timestamps, those inside a window come last.
proof fn lemma_window_cut(s: Seq<u64>, now: u64, window_ns: int)
    requires
        sorted_times(s),
    ensures
        exists|j: int| cut_at(s, j, now, window_ns),
    decreases s.len(),
{
    if s.len() == 0 {
        assert(cut_at(s, 0, now, window_ns));
    } else {
        let d = s.drop_last();
        assert(sorted_times(d)) by {
            assert forall|i: int, j: int| 0 <= i <= j < d.len() implies d[i] <= d[j] by {
                assert(d[i] == s[i] && d[j] == s[j]);
            }
        }
        lemma_window_cut(d, now, window_ns);
        let jd = choose|j: int| cut_at(d, j, now, window_ns);
        if in_window(s.last(), now, window_ns) {
            assert forall|i: int| 0 <= i < s.len() implies (in_window(#[trigger] s[i], now, window_ns) <==> i >= jd) by {
                if i < d.len() {
                    assert(d[i] == s[i]);
                }
            }
            assert(cut_at(s, jd, now, window_ns));
        } else {
            let n = s.len() as int;
            assert forall|i: int| 0 <= i < s.len() implies (in_window(#[trigger] s[i], now, window_ns) <==> i >= n) by {
                assert(s[i] <= s[n - 1]);
            }
            assert(cut_at(s, n, now, window_ns));
        }
    }
}

proof fn lemma_recent_recent(s: Seq<u64>, a: u64, b: u64, window_ns: int)
    requires
        a <= b,
    ensures
        recent(recent(s, a, window_ns), b, window_ns) == recent(s, b, window_ns),
    decreases s.len(),
{
    if s.len() > 0 {
        let d = s.drop_last();
        lemma_recent_recent(d, a, b, window_ns);
        let r = recent(d, a, window_ns);
        if in_window(s.last(), a, window_ns) {
            assert(r.push(s.last()).drop_last() =~= r);
        }
    }
}

proof fn lemma_newest_push(s: Seq<u64>, t: u64, cap: nat)
    ensures
        newest(newest(s, cap).push(t), cap) == newest(s.push(t), cap),
{
    let a = newest(newest(s, cap).push(t), cap);
    let b = newest(s.push(t), cap);
    assert(a =~= b);
}

proof fn lemma_recent_newest(s: Seq<u64>, now: u64, window_ns: int, cap: nat)
    requires
        sorted_times(s),
    ensures
        recent(newest(s, cap), now, window_ns) == newest(recent(s, now, window_ns), cap),
{
    let n = s.len() as int;
    lemma_window_cut(s, now, window_ns);
    let j = choose|j: int| cut_at(s, j, now, window_ns);
    lemma_recent_cut(s, j, now, window_ns);
    let m: int = if n > cap { n - cap } else { 0 };
    let u = s.subrange(m, n);
    assert(newest(s, cap) =~= u);
    let top = if j > m { j } else { m };
    assert forall|i: int| 0 <= i < u.len() implies (in_window(#[trigger] u[i], now, window_ns) <==> i >= top - m) by {
        assert(u[i] == s[m + i]);
    }
    lemma_recent_cut(u, top - m, now, window_ns);
    assert(recent(u, now, window_ns) =~= s.subrange(top, n));
    assert(newest(s.subrange(j, n), cap) =~= s.subrange(top, n));
}

/// For connections at non-decreasing times, what an IP holds after them is
/// the newest `cap` of its timestamps inside the window of the last one.
proof fn lemma_replay_sorted(times: Seq<u64>, window_ns: int, cap: nat)
    requires
        sorted_times(times),
        times.len() > 0,
        window_ns >= 0,
    ensures
        replay(Seq::empty(), times, window_ns, cap) == newest(recent(times, times.last(), window_ns), cap),
    decreases times.len(),
{
    let d = times.drop_last();
    let t = times.last();
    assert(d.push(t) =~= times);
    if d.len() == 0 {
        assert(Seq::<u64>::empty().push(t) =~= times);
        assert(replay(Seq::empty(), d, window_ns, cap) == Seq::<u64>::empty());
        assert(replay(Seq::empty(), times, window_ns, cap) == updated_hits(Seq::empty(), t, window_ns, cap));
    } else {
        assert(sorted_times(d)) by {
            assert forall|i: int, j: int| 0 <= i <= j < d.len() implies d[i] <= d[j] by {
                assert(d[i] == times[i] && d[j] == times[j]);
            }
        }
        let dl = d.last();
        assert(dl == times[d.len() - 1]);
        assert(dl <= t);
        lemma_replay_sorted(d, window_ns, cap);
        let r = recent(d, dl, window_ns);
        let x = newest(r, cap);
        lemma_window_cut(d, dl, window_ns);
        let j = choose|j: int| cut_at(d, j, dl, window_ns);
        lemma_recent_cut(d, j, dl, window_ns);
        assert(sorted_times(r)) by {
            assert forall|a: int, b: int| 0 <= a <= b < r.len() implies r[a] <= r[b] by {
                assert(r[a] == d[j + a] && r[b] == d[j + b]);
            }
        }
        assert(replay(Seq::empty(), times, window_ns, cap) == updated_hits(x, t, window_ns, cap));
        lemma_recent_push_now(x, t, window_ns);
        lemma_recent_newest(r, t, window_ns, cap);
        lemma_recent_recent(d, dl, t, window_ns);
        assert(recent(x, t, window_ns) == newest(recent(d, t, window_ns), cap));
        lemma_newest_push(recent(d, t, window_ns), t, cap);
        lemma_recent_push_now(d, t, window_ns);
    }
}

proof fn lemma_times_of_sorted(events: Seq<(IpKey, u64)>, key: IpKey)
    requires
        times_ordered(events),
    ensures
        sorted_times(times_of(events, key)),
        forall|i: int| 0 <= i < times_of(events, key).len() ==> times_of(events, key)[i] <= events.last().1,
    decreases events.len(),
{
    if events.len() > 0 {
        let d = events.drop_last();
        let n = events.len() as int;
        assert(times_ordered(d)) by {
            assert forall|i: int, j: int| 0 <= i <= j < d.len() implies d[i].1 <= d[j].1 by {
                assert(d[i] == events[i] && d[j] == events[j]);
            }
        }
        lemma_times_of_sorted(d, key);
        if d.len() > 0 {
            assert(d.last() == events[n - 2]);
            assert(events[n - 2].1 <= events[n - 1].1);
        } else {
            assert(times_of(d, key) =~= Seq::<u64>::empty());
        }
    }
}

// ── Laws over a run ──────────────────────────────────────────────────────────

/// Detection over a run: on a new tracker that records connections at
/// non-decreasing times from no more than `MAX_TRACKED_IPS` distinct IPs,
/// the last call says "suspicious" exactly when that IP connected at least
/// `threshold` times inside the window ending at the last connection; the
/// ports, the other IPs and the per-IP bound on stored timestamps never
/// change the answer.
pub proof fn law_detection_over_run(events: Seq<(IpKey, u64)>, window_ns: int, threshold: nat)
    requires
        events.len() > 0,
        window_ns >= 0,
        threshold <= usize::MAX,
        times_ordered(events),
        seen(events).len() <= MAX_TRACKED_IPS,
    ensures
        last_verdict(events, window_ns, threshold)
            == (recent(times_of(events, events.last().0), events.last().1, window_ns).len() >= threshold),
{
    let d = events.drop_last();
    let key = events.last().0;
    let now = events.last().1;
    let cap = hit_cap(threshold);
    lemma_seen_finite(d);
    assert(seen(events) == seen(d).insert(key));
    lemma_run_hits(d, window_ns, cap, key);
    let ts = times_of(events, key);
    assert(ts == times_of(d, key).push(now));
    assert(ts.drop_last() =~= times_of(d, key));
    lemma_times_of_sorted(events, key);
    lemma_replay_sorted(ts, window_ns, cap);
    lemma_newest_len(recent(ts, now, window_ns), cap);
}

/// The number of tracked IPs over a run: a new tracker that records
/// connections from `k` distinct IPs, with no purge between them, tracks
/// `min(k, MAX_TRACKED_IPS)` IPs, never more than `MAX_TRACKED_IPS`.
pub proof fn law_tracked_count_over_run(events: Seq<(IpKey, u64)>, window_ns: int, cap: nat)
    ensures
        run(events, window_ns, cap).len() == min_nat(seen(events).len(), MAX_TRACKED_IPS as nat),
        run(events, window_ns, cap).len() <= MAX_TRACKED_IPS,
{
    lemma_run_inv(events, window_ns, cap);
}

/// Distinct peer IPs are tracked under distinct keys: no two addresses,
/// IPv4 or IPv6, share a history, so a connection from one IP never changes
/// another IP's timestamps or verdict.
pub proof fn law_key_injective(a: PeerIp, b: PeerIp)
    ensures
        a.spec_key() == b.spec_key() ==> a == b,
{
}

} // verus!
