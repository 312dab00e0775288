//! The result cache: memoizes resolver outputs per client IP, with a fixed
//! lifespan and single-flight semantics.
//!
//! The cache itself is a per-key state machine: a key is absent, in flight
//! (some caller is loading it), or present with an insertion time. The caller
//! that is told to lead runs the loader and reports back with `store` or
//! `clear`; every other concurrent caller is told to wait. Failures are never
//! stored, so the next request loads again.

use vstd::prelude::*;
use crate::resolver::ResolvedAirport;

verus! {

/// Entry lifespan: 7 days, in milliseconds.
pub const CACHE_TTL_MS: u64 = 604800000;

/// The per-key state.
pub enum KeyState {
    /// A caller is loading the value; everyone else waits.
    InFlight,
    /// A loaded value and the time it was stored.
    Present { value: ResolvedAirport, inserted_at_ms: u64 },
}

/// What one cache access does for the caller.
pub enum GetAction {
    /// A fresh value was found; no loader runs.
    Hit(ResolvedAirport),
    /// The key is now in flight and this caller must run the loader.
    Lead,
    /// Another caller is already loading this key.
    Wait,
}

/// A stored value is visible from its insertion until the lifespan has
/// passed.
pub open spec fn spec_fresh(inserted_at_ms: u64, now_ms: u64) -> bool {
    inserted_at_ms <= now_ms < inserted_at_ms + CACHE_TTL_MS
}

/// The decision one access makes, as a function of the key's state and the
/// clock alone.
pub open spec fn spec_decision(st: Option<KeyState>, now_ms: u64) -> GetAction {
    match st {
        None => GetAction::Lead,
        Some(KeyState::InFlight) => GetAction::Wait,
        Some(KeyState::Present { value, inserted_at_ms }) => if spec_fresh(
            inserted_at_ms,
            now_ms,
        ) {
            GetAction::Hit(value)
        } else {
            GetAction::Lead
        },
    }
}

/// One cache entry: a key and its state.
pub struct CacheEntry {
    pub key: String,
    pub state: KeyState,
}

/// True iff some entry of `s` carries the key `k`.
pub open spec fn seq_contains_key(s: Seq<CacheEntry>, k: Seq<char>) -> bool {
    exists|i: int| 0 <= i < s.len() && s[i].key@ == k
}

/// The index of the entry that carries `k` (unique when the keys are unique).
pub open spec fn seq_key_idx(s: Seq<CacheEntry>, k: Seq<char>) -> int {
    choose|i: int| 0 <= i < s.len() && s[i].key@ == k
}

/// The state stored under `k`.
pub open spec fn seq_key_state(s: Seq<CacheEntry>, k: Seq<char>) -> KeyState {
    s[seq_key_idx(s, k)].state
}

/// Well-formed entry sequence: keys unique.
pub open spec fn seq_cache_wf(s: Seq<CacheEntry>) -> bool {
    forall|i: int, j: int| 0 <= i < j < s.len() ==> s[i].key@ != s[j].key@
}

/// With unique keys, the entry that carries `k` at index `i` is the one the
/// lookup functions speak of.
pub proof fn lemma_key_idx_unique(s: Seq<CacheEntry>, k: Seq<char>, i: int)
    requires
        seq_cache_wf(s),
        0 <= i < s.len(),
        s[i].key@ == k,
    ensures
        seq_contains_key(s, k),
        seq_key_idx(s, k) == i,
        seq_key_state(s, k) == s[i].state,
{
    assert(seq_contains_key(s, k));
    let w = seq_key_idx(s, k);
    assert(0 <= w < s.len() && s[w].key@ == k);
    if w < i {
        assert(s[w].key@ != s[i].key@);
    }
    if w > i {
        assert(s[i].key@ != s[w].key@);
    }
}

/// The result cache.
pub struct FlightCache {
    pub entries: Vec<CacheEntry>,
}

impl FlightCache {
    pub open spec fn wf(self) -> bool {
        seq_cache_wf(self.entries@)
    }

    pub open spec fn contains_key(self, k: Seq<char>) -> bool {
        seq_contains_key(self.entries@, k)
    }

    /// The state of key `k`: `None` when the cache has no entry for it.
    pub open spec fn state_of(self, k: Seq<char>) -> Option<KeyState> {
        if self.contains_key(k) {
            Some(seq_key_state(self.entries@, k))
        } else {
            None
        }
    }

    pub fn new() -> (r: FlightCache)
        ensures
            r.wf(),
            r.entries@.len() == 0,
    {
        FlightCache { entries: Vec::new() }
    }

    /// One cache access for `key` at `now_ms`. A fresh value is a hit and
    /// changes nothing; an in-flight key makes the caller wait and changes
    /// nothing; an absent or expired key makes this caller the leader and
    /// marks the key in flight.
    pub fn on_get(&mut self, key: &String, now_ms: u64) -> (r: GetAction)
        requires
            old(self).wf(),
        ensures
            final(self).wf(),
            r == spec_decision(old(self).state_of(key@), now_ms),
            r is Lead ==> final(self).state_of(key@) == Some(KeyState::InFlight),
            !(r is Lead) ==> *final(self) == *old(self),
            forall|k: Seq<char>|
                k != key@ ==> #[trigger] final(self).state_of(k) == old(self).state_of(k),
    {
        let n: usize = self.entries.len();
        let mut i: usize = 0;
        while i < n
            invariant
                n == self.entries@.len(),
                i <= n,
                *self == *old(self),
                self.wf(),
                forall|j: int| 0 <= j < i ==> self.entries@[j].key@ != key@,
            decreases n - i,
        {
            if self.entries[i].key == *key {
                proof {
                    lemma_key_idx_unique(self.entries@, key@, i as int);
                }
                match &self.entries[i].state {
                    KeyState::InFlight => {
                        return GetAction::Wait;
                    },
                    KeyState::Present { value, inserted_at_ms } => {
                        let t: u64 = *inserted_at_ms;
                        if now_ms >= t && now_ms - t < CACHE_TTL_MS {
                            return GetAction::Hit(value.clone());
                        }
                    },
                }
                self.entries[i].state = KeyState::InFlight;
                proof {
                    self.lemma_after_update(*old(self), key@, i as int);
                }
                return GetAction::Lead;
            }
            i += 1;
        }
        self.entries.push(CacheEntry { key: key.clone(), state: KeyState::InFlight });
        proof {
            self.lemma_after_push(*old(self), key@);
        }
        GetAction::Lead
    }

    /// The leader reports a loaded value: the key becomes present as of
    /// `now_ms`, every other key keeps its state.
    pub fn store(&mut self, key: &String, value: ResolvedAirport, now_ms: u64)
        requires
            old(self).wf(),
        ensures
            final(self).wf(),
            final(self).state_of(key@) == Some(
                KeyState::Present { value, inserted_at_ms: now_ms },
            ),
            forall|k: Seq<char>|
                k != key@ ==> #[trigger] final(self).state_of(k) == old(self).state_of(k),
    {
        let n: usize = self.entries.len();
        let mut i: usize = 0;
        while i < n
            invariant
                n == self.entries@.len(),
                i <= n,
                *self == *old(self),
                self.wf(),
                forall|j: int| 0 <= j < i ==> self.entries@[j].key@ != key@,
            decreases n - i,
        {
            if self.entries[i].key == *key {
                self.entries[i].state = KeyState::Present { value, inserted_at_ms: now_ms };
                proof {
                    self.lemma_after_update(*old(self), key@, i as int);
                }
                return ;
            }
            i += 1;
        }
        self.entries.push(
            CacheEntry { key: key.clone(), state: KeyState::Present { value, inserted_at_ms: now_ms } },
        );
        proof {
            self.lemma_after_push(*old(self), key@);
        }
    }

    /// The leader reports a failed load: the key becomes absent — the failure
    /// is not stored — and every other key keeps its state.
    pub fn clear(&mut self, key: &String)
        requires
            old(self).wf(),
        ensures
            final(self).wf(),
            final(self).state_of(key@) is None,
            forall|k: Seq<char>|
                k != key@ ==> #[trigger] final(self).state_of(k) == old(self).state_of(k),
    {
        let n: usize = self.entries.len();
        let mut kept: Vec<CacheEntry> = Vec::new();
        let mut i: usize = 0;
        while i < n
            invariant
                n == self.entries@.len(),
                i <= n,
                self.wf(),
                seq_cache_wf(kept@),
                forall|k: Seq<char>|
                    #[trigger] seq_contains_key(kept@, k) ==> k != key@ && exists|j: int|
                        0 <= j < i && (#[trigger] self.entries@[j]).key@ == k,
                forall|k: Seq<char>|
                    #[trigger] seq_contains_key(kept@, k) ==> self.contains_key(k)
                        && seq_key_state(kept@, k) == seq_key_state(self.entries@, k),
                forall|j: int|
                    0 <= j < i && (#[trigger] self.entries@[j]).key@ != key@
                        ==> seq_contains_key(kept@, self.entries@[j].key@),
            decreases n - i,
        {
            let ghost s = self.entries@;
            let ghost k0 = s[i as int].key@;
            proof {
                lemma_key_idx_unique(s, k0, i as int);
                assert(!seq_contains_key(kept@, k0)) by {
                    if seq_contains_key(kept@, k0) {
                        let j = choose|j: int|
                            0 <= j < i && (#[trigger] self.entries@[j]).key@ == k0;
                        assert(s[j].key@ != s[i as int].key@);
                    }
                }
            }
            if !(self.entries[i].key == *key) {
                let e = CacheEntry {
                    key: self.entries[i].key.clone(),
                    state: clone_state(&self.entries[i].state),
                };
                let ghost kept0 = kept@;
                kept.push(e);
                proof {
                    let s1k = kept@;
                    let last = s1k.len() - 1;
                    assert(s1k[last].key@ == k0);
                    assert(s1k[last].state == s[i as int].state);
                    assert forall|a: int, b2: int| 0 <= a < b2 < s1k.len() implies s1k[a].key@
                        != s1k[b2].key@ by {
                        if b2 < last {
                            assert(kept0[a].key@ != kept0[b2].key@);
                        } else {
                            if s1k[a].key@ == k0 {
                                assert(seq_contains_key(kept0, k0)) by {
                                    assert(kept0[a].key@ == k0);
                                }
                            }
                        }
                    }
                    assert forall|k: Seq<char>| #[trigger] seq_contains_key(s1k, k) implies k
                        != key@ && exists|j: int|
                        0 <= j < i + 1 && (#[trigger] self.entries@[j]).key@ == k by {
                        let w = seq_key_idx(s1k, k);
                        assert(0 <= w < s1k.len() && s1k[w].key@ == k);
                        if w < last {
                            assert(seq_contains_key(kept0, k)) by {
                                assert(kept0[w].key@ == k);
                            }
                        } else {
                            assert(self.entries@[i as int].key@ == k);
                        }
                    }
                    assert forall|k: Seq<char>| #[trigger] seq_contains_key(s1k, k) implies
                        self.contains_key(k) && seq_key_state(s1k, k) == seq_key_state(
                        self.entries@,
                        k,
                    ) by {
                        let w = seq_key_idx(s1k, k);
                        assert(0 <= w < s1k.len() && s1k[w].key@ == k);
                        if w < last {
                            assert(seq_contains_key(kept0, k)) by {
                                assert(kept0[w].key@ == k);
                            }
                            lemma_key_idx_unique(kept0, k, w);
                            lemma_key_idx_unique(s1k, k, w);
                        } else {
                            lemma_key_idx_unique(s1k, k0, last);
                        }
                    }
                    assert forall|j: int|
                        0 <= j < i + 1 && (#[trigger] self.entries@[j]).key@ != key@ implies
                        seq_contains_key(s1k, self.entries@[j].key@) by {
                        let kj = s[j].key@;
                        if j == i {
                            assert(s1k[last].key@ == kj);
                        } else {
                            assert(seq_contains_key(kept0, kj));
                            let w = seq_key_idx(kept0, kj);
                            assert(s1k[w].key@ == kj);
                        }
                    }
                }
            } else {
                proof {
                    assert(k0 == key@);
                }
            }
            i += 1;
        }
        self.entries = kept;
        proof {
            let s0 = old(self).entries@;
            assert(!self.contains_key(key@)) by {
                if seq_contains_key(self.entries@, key@) {
                }
            }
            assert forall|k: Seq<char>| k != key@ implies #[trigger] self.state_of(k) == old(
                self,
            ).state_of(k) by {
                if old(self).contains_key(k) {
                    let w = seq_key_idx(s0, k);
                    assert(0 <= w < s0.len() && s0[w].key@ == k);
                    lemma_key_idx_unique(s0, k, w);
                    assert(seq_contains_key(self.entries@, k));
                }
            }
        }
    }

    /// After replacing the state at the entry for `key` (index `i`), the
    /// lookup functions see the new state there and the old state elsewhere.
    proof fn lemma_after_update(self, pre: FlightCache, key: Seq<char>, i: int)
        requires
            pre.wf(),
            0 <= i < pre.entries@.len(),
            pre.entries@[i].key@ == key,
            self.entries@.len() == pre.entries@.len(),
            self.entries@ == pre.entries@.update(i, self.entries@[i]),
            self.entries@[i].key@ == key,
        ensures
            self.wf(),
            self.state_of(key) == Some(self.entries@[i].state),
            forall|k: Seq<char>| k != key ==> #[trigger] self.state_of(k) == pre.state_of(k),
    {
        let s0 = pre.entries@;
        let s1 = self.entries@;
        assert forall|a: int, b2: int| 0 <= a < b2 < s1.len() implies s1[a].key@ != s1[b2].key@
        by {
            assert(s0[a].key@ != s0[b2].key@);
            assert(s1[a].key@ == s0[a].key@ && s1[b2].key@ == s0[b2].key@);
        }
        lemma_key_idx_unique(s1, key, i);
        assert forall|k: Seq<char>| k != key implies #[trigger] self.state_of(k) == pre.state_of(
            k,
        ) by {
            if seq_contains_key(s0, k) {
                let w = seq_key_idx(s0, k);
                assert(0 <= w < s0.len() && s0[w].key@ == k);
                lemma_key_idx_unique(s0, k, w);
                assert(s1[w].key@ == k);
                lemma_key_idx_unique(s1, k, w);
                assert(s1[w].state == s0[w].state);
            } else {
                if seq_contains_key(s1, k) {
                    let w = seq_key_idx(s1, k);
                    assert(s0[w].key@ == k);
                }
            }
        }
    }

    /// After pushing an entry for a key that was absent, the lookup functions
    /// see the new entry and the old states elsewhere.
    proof fn lemma_after_push(self, pre: FlightCache, key: Seq<char>)
        requires
            pre.wf(),
            !pre.contains_key(key),
            self.entries@.len() == pre.entries@.len() + 1,
            self.entries@ == pre.entries@.push(self.entries@[pre.entries@.len() as int]),
            self.entries@[pre.entries@.len() as int].key@ == key,
        ensures
            self.wf(),
            self.state_of(key) == Some(self.entries@[pre.entries@.len() as int].state),
            forall|k: Seq<char>| k != key ==> #[trigger] self.state_of(k) == pre.state_of(k),
    {
        let s0 = pre.entries@;
        let s1 = self.entries@;
        let last = s0.len() as int;
        assert forall|a: int, b2: int| 0 <= a < b2 < s1.len() implies s1[a].key@ != s1[b2].key@
        by {
            if b2 < last {
                assert(s0[a].key@ != s0[b2].key@);
            } else {
                if s1[a].key@ == key {
                    assert(seq_contains_key(s0, key)) by {
                        assert(s0[a].key@ == key);
                    }
                }
            }
        }
        lemma_key_idx_unique(s1, key, last);
        assert forall|k: Seq<char>| k != key implies #[trigger] self.state_of(k) == pre.state_of(
            k,
        ) by {
            if seq_contains_key(s0, k) {
                let w = seq_key_idx(s0, k);
                assert(0 <= w < s0.len() && s0[w].key@ == k);
                lemma_key_idx_unique(s0, k, w);
                assert(s1[w].key@ == k);
                lemma_key_idx_unique(s1, k, w);
                assert(s1[w].state == s0[w].state);
            } else {
                if seq_contains_key(s1, k) {
                    let w = seq_key_idx(s1, k);
                    assert(w != last);
                    assert(s0[w].key@ == k);
                }
            }
        }
    }
}

/// A copy of a key state (states carry owned strings).
pub fn clone_state(st: &KeyState) -> (r: KeyState)
    ensures
        r == *st,
{
    match st {
        KeyState::InFlight => KeyState::InFlight,
        KeyState::Present { value, inserted_at_ms } => KeyState::Present {
            value: value.clone(),
            inserted_at_ms: *inserted_at_ms,
        },
    }
}

/// Cache lifespan: while a cache maps `key` to a value stored at `t` — the
/// state `store` establishes — every access strictly before
/// `t + CACHE_TTL_MS` hits that value and runs no loader; any access from
/// `t + CACHE_TTL_MS` on leads a fresh load instead.
pub proof fn lemma_cache_lifespan(
    c: FlightCache,
    key: Seq<char>,
    value: ResolvedAirport,
    t: u64,
    now_ms: u64,
)
    requires
        c.state_of(key) == Some(KeyState::Present { value, inserted_at_ms: t }),
    ensures
        t <= now_ms < t + CACHE_TTL_MS ==> spec_decision(c.state_of(key), now_ms)
            == GetAction::Hit(value),
        now_ms >= t + CACHE_TTL_MS ==> spec_decision(c.state_of(key), now_ms)
            == GetAction::Lead,
{
}

/// Single flight: an access that is told to lead leaves the key in flight
/// (`on_get`'s postcondition), and while a key is in flight every access to
/// it waits, whatever the clock says. So of any number of concurrent
/// accesses to a missing key, exactly the first leads and runs the loader.
pub proof fn lemma_single_flight(c: FlightCache, key: Seq<char>, now_ms: u64)
    requires
        c.state_of(key) == Some(KeyState::InFlight),
    ensures
        spec_decision(c.state_of(key), now_ms) == GetAction::Wait,
{
}

/// No store on failure: after a failed load the key is absent — the state
/// `clear` establishes — and an access to an absent key leads a fresh load:
/// the loader runs again.
pub proof fn lemma_retry_after_failure(c: FlightCache, key: Seq<char>, now_ms: u64)
    requires
        c.state_of(key) is None,
    ensures
        spec_decision(c.state_of(key), now_ms) == GetAction::Lead,
{
}

} // verus!
