//! Per-client token-bucket rate limiting.
//!
//! Tokens are counted in thousandths ("millitokens") so that the refill
//! arithmetic stays in integers: the bucket refills at 2 tokens per second,
//! i.e. 2 millitokens per millisecond, up to a burst of 20 tokens. One
//! admission costs one token.

use vstd::prelude::*;

verus! {

/// Millitokens gained per elapsed millisecond (2 tokens per second).
pub const REFILL_MILLITOKENS_PER_MS: u64 = 2;

/// Bucket capacity: 20 tokens.
pub const BURST_MILLITOKENS: u64 = 20000;

/// Cost of one admission: 1 token.
pub const COST_MILLITOKENS: u64 = 1000;

/// Milliseconds after which an empty bucket is certainly full again.
pub const FULL_REFILL_MS: u64 = 10000;

/// One client's token bucket.
#[derive(Clone, Copy, Debug, PartialEq, Eq, Structural)]
pub struct TokenBucket {
    pub millitokens: u64,
    pub last_refill_ms: u64,
}

impl TokenBucket {
    pub open spec fn wf(self) -> bool {
        self.millitokens <= BURST_MILLITOKENS
    }

    /// The millitokens the bucket holds once refilled at `now_ms`: the stored
    /// amount plus the continuous refill since the last touch, capped at the
    /// burst size. An earlier `now_ms` (a clock that stood still) refills
    /// nothing.
    pub open spec fn spec_available(self, now_ms: u64) -> int {
        let elapsed: int = if now_ms >= self.last_refill_ms {
            now_ms - self.last_refill_ms
        } else {
            0
        };
        let refilled: int = self.millitokens + elapsed * REFILL_MILLITOKENS_PER_MS;
        if refilled > BURST_MILLITOKENS { BURST_MILLITOKENS as int } else { refilled }
    }

    /// A bucket that has never been drawn from.
    pub fn new_full(now_ms: u64) -> (r: TokenBucket)
        ensures
            r.wf(),
            r.millitokens == BURST_MILLITOKENS,
            r.last_refill_ms == now_ms,
    {
        TokenBucket { millitokens: BURST_MILLITOKENS, last_refill_ms: now_ms }
    }

    /// The millitokens available at `now_ms`.
    pub fn available(&self, now_ms: u64) -> (r: u64)
        requires
            self.wf(),
        ensures
            r == self.spec_available(now_ms),
    {
        if now_ms >= self.last_refill_ms {
            let elapsed: u64 = now_ms - self.last_refill_ms;
            if elapsed >= FULL_REFILL_MS {
                BURST_MILLITOKENS
            } else {
                let refilled: u64 = self.millitokens + elapsed * REFILL_MILLITOKENS_PER_MS;
                if refilled > BURST_MILLITOKENS {
                    BURST_MILLITOKENS
                } else {
                    refilled
                }
            }
        } else {
            self.millitokens
        }
    }

    /// Refill at `now_ms`, then withdraw one token if one is available.
    /// Returns the new bucket and whether the withdrawal succeeded.
    pub fn take_one(self, now_ms: u64) -> (r: (TokenBucket, bool))
        requires
            self.wf(),
        ensures
            r.0.wf(),
            r.0.last_refill_ms == now_ms,
            r.1 == (self.spec_available(now_ms) >= COST_MILLITOKENS),
            r.1 ==> r.0.millitokens == self.spec_available(now_ms) - COST_MILLITOKENS,
            !r.1 ==> r.0.millitokens == self.spec_available(now_ms),
    {
        let avail: u64 = self.available(now_ms);
        if avail >= COST_MILLITOKENS {
            (TokenBucket { millitokens: avail - COST_MILLITOKENS, last_refill_ms: now_ms }, true)
        } else {
            (TokenBucket { millitokens: avail, last_refill_ms: now_ms }, false)
        }
    }
}

/// One limiter entry: a client IP and its bucket.
pub struct LimiterEntry {
    pub ip: String,
    pub bucket: TokenBucket,
}

/// True iff some entry of `s` carries the key `k`.
pub open spec fn seq_contains_ip(s: Seq<LimiterEntry>, k: Seq<char>) -> bool {
    exists|i: int| 0 <= i < s.len() && s[i].ip@ == k
}

/// The index of the entry that carries `k` (unique when the keys are unique).
pub open spec fn seq_idx_of(s: Seq<LimiterEntry>, k: Seq<char>) -> int {
    choose|i: int| 0 <= i < s.len() && s[i].ip@ == k
}

/// The bucket stored under `k`.
pub open spec fn seq_bucket_of(s: Seq<LimiterEntry>, k: Seq<char>) -> TokenBucket {
    s[seq_idx_of(s, k)].bucket
}

/// Well-formed entry sequence: keys unique, buckets within the burst cap.
pub open spec fn seq_entries_wf(s: Seq<LimiterEntry>) -> bool {
    &&& forall|i: int, j: int| 0 <= i < j < s.len() ==> s[i].ip@ != s[j].ip@
    &&& forall|i: int| 0 <= i < s.len() ==> (#[trigger] s[i].bucket).wf()
}

/// With unique keys, the entry that carries `k` at index `i` is the one the
/// lookup functions speak of.
pub proof fn lemma_idx_unique(s: Seq<LimiterEntry>, k: Seq<char>, i: int)
    requires
        seq_entries_wf(s),
        0 <= i < s.len(),
        s[i].ip@ == k,
    ensures
        seq_contains_ip(s, k),
        seq_idx_of(s, k) == i,
        seq_bucket_of(s, k) == s[i].bucket,
{
    assert(seq_contains_ip(s, k));
    let w = seq_idx_of(s, k);
    assert(0 <= w < s.len() && s[w].ip@ == k);
    if w < i {
        assert(s[w].ip@ != s[i].ip@);
    }
    if w > i {
        assert(s[i].ip@ != s[w].ip@);
    }
}

/// The per-client rate limiter: a map from client IP to its token bucket.
pub struct RateLimiter {
    pub entries: Vec<LimiterEntry>,
}

impl RateLimiter {
    pub open spec fn wf(self) -> bool {
        seq_entries_wf(self.entries@)
    }

    pub open spec fn contains_ip(self, k: Seq<char>) -> bool {
        seq_contains_ip(self.entries@, k)
    }

    pub open spec fn bucket_of(self, k: Seq<char>) -> TokenBucket {
        seq_bucket_of(self.entries@, k)
    }

    /// The millitokens a request from `k` can draw on at `now_ms`: a client
    /// never seen before has a full bucket.
    pub open spec fn spec_avail(self, k: Seq<char>, now_ms: u64) -> int {
        if self.contains_ip(k) {
            self.bucket_of(k).spec_available(now_ms)
        } else {
            BURST_MILLITOKENS as int
        }
    }

    pub fn new() -> (r: RateLimiter)
        ensures
            r.wf(),
            r.entries@.len() == 0,
    {
        RateLimiter { entries: Vec::new() }
    }

    /// The number of tracked clients (the eviction task logs it).
    pub fn len(&self) -> (r: usize)
        ensures
            r == self.entries@.len(),
    {
        self.entries.len()
    }

    /// Admission check for one request from `ip` at `now_ms`: refill the
    /// client's bucket, then withdraw one token. Returns whether the request
    /// is admitted; a rejected request still updates the refill stamp.
    pub fn check(&mut self, ip: &String, now_ms: u64) -> (admitted: bool)
        requires
            old(self).wf(),
        ensures
            final(self).wf(),
            admitted == (old(self).spec_avail(ip@, now_ms) >= COST_MILLITOKENS),
            final(self).contains_ip(ip@),
            final(self).bucket_of(ip@).last_refill_ms == now_ms,
            admitted ==> final(self).bucket_of(ip@).millitokens == old(self).spec_avail(
                ip@,
                now_ms,
            ) - COST_MILLITOKENS,
            !admitted ==> final(self).bucket_of(ip@).millitokens == old(self).spec_avail(
                ip@,
                now_ms,
            ),
            forall|k: Seq<char>|
                k != ip@ ==> #[trigger] final(self).contains_ip(k) == old(self).contains_ip(k),
            forall|k: Seq<char>|
                k != ip@ && old(self).contains_ip(k) ==> #[trigger] final(self).bucket_of(k)
                    == old(self).bucket_of(k),
    {
        let n: usize = self.entries.len();
        let mut i: usize = 0;
        while i < n
            invariant
                n == self.entries@.len(),
                i <= n,
                *self == *old(self),
                self.wf(),
                forall|j: int| 0 <= j < i ==> self.entries@[j].ip@ != ip@,
            decreases n - i,
        {
            if self.entries[i].ip == *ip {
                let b: TokenBucket = self.entries[i].bucket;
                let r: (TokenBucket, bool) = b.take_one(now_ms);
                self.entries[i].bucket = r.0;
                proof {
                    let s0 = old(self).entries@;
                    let s1 = self.entries@;
                    lemma_idx_unique(s0, ip@, i as int);
                    assert forall|a: int, b2: int| 0 <= a < b2 < s1.len() implies s1[a].ip@
                        != s1[b2].ip@ by {
                        assert(s0[a].ip@ != s0[b2].ip@);
                        assert(s1[a].ip@ == s0[a].ip@ && s1[b2].ip@ == s0[b2].ip@);
                    }
                    assert forall|j: int| 0 <= j < s1.len() implies (#[trigger] s1[j].bucket).wf()
                    by {
                        if j != i {
                            assert(s1[j] == s0[j]);
                        }
                    }
                    lemma_idx_unique(s1, ip@, i as int);
                    assert forall|k: Seq<char>| k != ip@ implies #[trigger] self.contains_ip(k)
                        == old(self).contains_ip(k) by {
                        if seq_contains_ip(s0, k) {
                            let w = seq_idx_of(s0, k);
                            assert(s1[w].ip@ == k);
                        }
                        if seq_contains_ip(s1, k) {
                            let w = seq_idx_of(s1, k);
                            assert(s0[w].ip@ == k);
                        }
                    }
                    assert forall|k: Seq<char>| k != ip@ && old(self).contains_ip(k) implies
                        #[trigger] self.bucket_of(k) == old(self).bucket_of(k) by {
                        let w = seq_idx_of(s0, k);
                        assert(0 <= w < s0.len() && s0[w].ip@ == k);
                        lemma_idx_unique(s0, k, w);
                        assert(s1[w].ip@ == k);
                        lemma_idx_unique(s1, k, w);
                        assert(s1[w].bucket == s0[w].bucket);
                    }
                }
                return r.1;
            }
            i += 1;
        }
        let fresh: TokenBucket = TokenBucket::new_full(now_ms);
        let r: (TokenBucket, bool) = fresh.take_one(now_ms);
        self.entries.push(LimiterEntry { ip: ip.clone(), bucket: r.0 });
        proof {
            let s0 = old(self).entries@;
            let s1 = self.entries@;
            let last = s1.len() - 1;
            assert(s1[last].ip@ == ip@);
            assert(!seq_contains_ip(s0, ip@)) by {
                if seq_contains_ip(s0, ip@) {
                    let w = seq_idx_of(s0, ip@);
                    assert(s0[w].ip@ != ip@);
                }
            }
            assert(fresh.spec_available(now_ms) == BURST_MILLITOKENS as int);
            assert forall|a: int, b2: int| 0 <= a < b2 < s1.len() implies s1[a].ip@ != s1[b2].ip@
            by {
                if b2 < last {
                    assert(s0[a].ip@ != s0[b2].ip@);
                } else {
                    assert(s0[a].ip@ != ip@);
                }
            }
            assert forall|j: int| 0 <= j < s1.len() implies (#[trigger] s1[j].bucket).wf() by {
                if j < last {
                    assert(s1[j] == s0[j]);
                }
            }
            lemma_idx_unique(s1, ip@, last);
            assert forall|k: Seq<char>| k != ip@ implies #[trigger] self.contains_ip(k) == old(
                self,
            ).contains_ip(k) by {
                if seq_contains_ip(s0, k) {
                    let w = seq_idx_of(s0, k);
                    assert(s1[w].ip@ == k);
                }
                if seq_contains_ip(s1, k) {
                    let w = seq_idx_of(s1, k);
                    assert(w != last);
                    assert(s0[w].ip@ == k);
                }
            }
            assert forall|k: Seq<char>| k != ip@ && old(self).contains_ip(k) implies
                #[trigger] self.bucket_of(k) == old(self).bucket_of(k) by {
                let w = seq_idx_of(s0, k);
                assert(0 <= w < s0.len() && s0[w].ip@ == k);
                lemma_idx_unique(s0, k, w);
                assert(s1[w].ip@ == k);
                lemma_idx_unique(s1, k, w);
                assert(s1[w].bucket == s0[w].bucket);
            }
        }
        r.1
    }

    /// The periodic eviction sweep: drop every entry whose bucket would be
    /// full again at `now_ms` (fully refilled and therefore idle); keep the
    /// rest untouched.
    pub fn sweep(&mut self, now_ms: u64)
        requires
            old(self).wf(),
        ensures
            final(self).wf(),
            forall|k: Seq<char>|
                #![trigger final(self).contains_ip(k)]
                #![trigger old(self).contains_ip(k)]
                final(self).contains_ip(k) <==> (old(self).contains_ip(k) && old(
                    self,
                ).bucket_of(k).spec_available(now_ms) < BURST_MILLITOKENS),
            forall|k: Seq<char>|
                final(self).contains_ip(k) ==> #[trigger] final(self).bucket_of(k) == old(
                    self,
                ).bucket_of(k),
    {
        let n: usize = self.entries.len();
        let mut kept: Vec<LimiterEntry> = Vec::new();
        let mut i: usize = 0;
        while i < n
            invariant
                n == self.entries@.len(),
                i <= n,
                self.wf(),
                seq_entries_wf(kept@),
                forall|k: Seq<char>|
                    #[trigger] seq_contains_ip(kept@, k) ==> exists|j: int|
                        0 <= j < i && (#[trigger] self.entries@[j]).ip@ == k,
                forall|k: Seq<char>|
                    #[trigger] seq_contains_ip(kept@, k) ==> self.contains_ip(k)
                        && self.bucket_of(k).spec_available(now_ms) < BURST_MILLITOKENS
                        && seq_bucket_of(kept@, k) == self.bucket_of(k),
                forall|j: int|
                    0 <= j < i ==> (seq_contains_ip(kept@, (#[trigger] self.entries@[j]).ip@)
                        <==> self.entries@[j].bucket.spec_available(now_ms) < BURST_MILLITOKENS),
            decreases n - i,
        {
            let ghost s = self.entries@;
            let ghost k0 = s[i as int].ip@;
            proof {
                lemma_idx_unique(s, k0, i as int);
                assert(!seq_contains_ip(kept@, k0)) by {
                    if seq_contains_ip(kept@, k0) {
                        let j = choose|j: int|
                            0 <= j < i && (#[trigger] self.entries@[j]).ip@ == k0;
                        assert(s[j].ip@ != s[i as int].ip@);
                    }
                }
            }
            let avail: u64 = self.entries[i].bucket.available(now_ms);
            if avail < BURST_MILLITOKENS {
                let e = LimiterEntry {
                    ip: self.entries[i].ip.clone(),
                    bucket: self.entries[i].bucket,
                };
                let ghost kept0 = kept@;
                kept.push(e);
                proof {
                    let s1k = kept@;
                    let last = s1k.len() - 1;
                    assert(s1k[last].ip@ == k0);
                    assert(s1k[last].bucket == s[i as int].bucket);
                    assert forall|a: int, b2: int| 0 <= a < b2 < s1k.len() implies s1k[a].ip@
                        != s1k[b2].ip@ by {
                        if b2 < last {
                            assert(kept0[a].ip@ != kept0[b2].ip@);
                        } else {
                            if s1k[a].ip@ == k0 {
                                assert(seq_contains_ip(kept0, k0)) by {
                                    assert(kept0[a].ip@ == k0);
                                }
                            }
                        }
                    }
                    assert forall|j: int| 0 <= j < s1k.len() implies (
                    #[trigger] s1k[j].bucket).wf() by {
                        if j < last {
                            assert(s1k[j] == kept0[j]);
                        }
                    }
                    lemma_idx_unique(s1k, k0, last);
                    assert forall|k: Seq<char>| #[trigger] seq_contains_ip(s1k, k) implies exists|
                        j: int,
                    | 0 <= j < i + 1 && (#[trigger] self.entries@[j]).ip@ == k by {
                        let w = seq_idx_of(s1k, k);
                        assert(0 <= w < s1k.len() && s1k[w].ip@ == k);
                        if w < last {
                            assert(seq_contains_ip(kept0, k)) by {
                                assert(kept0[w].ip@ == k);
                            }
                        } else {
                            assert(self.entries@[i as int].ip@ == k);
                        }
                    }
                    assert forall|k: Seq<char>| #[trigger] seq_contains_ip(s1k, k) implies
                        self.contains_ip(k) && self.bucket_of(k).spec_available(now_ms)
                        < BURST_MILLITOKENS && seq_bucket_of(s1k, k) == self.bucket_of(k) by {
                        let w = seq_idx_of(s1k, k);
                        assert(0 <= w < s1k.len() && s1k[w].ip@ == k);
                        if w < last {
                            assert(seq_contains_ip(kept0, k)) by {
                                assert(kept0[w].ip@ == k);
                            }
                            lemma_idx_unique(kept0, k, w);
                            lemma_idx_unique(s1k, k, w);
                        } else {
                            lemma_idx_unique(s1k, k0, last);
                        }
                    }
                    assert forall|j: int| 0 <= j < i + 1 implies (seq_contains_ip(
                        s1k,
                        (#[trigger] self.entries@[j]).ip@,
                    ) <==> self.entries@[j].bucket.spec_available(now_ms) < BURST_MILLITOKENS)
                    by {
                        let kj = s[j].ip@;
                        if j == i {
                            assert(seq_contains_ip(s1k, kj)) by {
                                assert(s1k[last].ip@ == kj);
                            }
                        } else {
                            assert(s[j].ip@ != s[i as int].ip@);
                            if seq_contains_ip(kept0, kj) {
                                let w = seq_idx_of(kept0, kj);
                                assert(s1k[w].ip@ == kj);
                            }
                            if seq_contains_ip(s1k, kj) {
                                let w = seq_idx_of(s1k, kj);
                                assert(0 <= w < s1k.len() && s1k[w].ip@ == kj);
                                assert(w != last);
                                assert(seq_contains_ip(kept0, kj)) by {
                                    assert(kept0[w].ip@ == kj);
                                }
                            }
                        }
                    }
                }
            } else {
                proof {
                    assert forall|j: int| 0 <= j < i + 1 implies (seq_contains_ip(
                        kept@,
                        (#[trigger] self.entries@[j]).ip@,
                    ) <==> self.entries@[j].bucket.spec_available(now_ms) < BURST_MILLITOKENS)
                    by {
                        if j == i {
                            assert(!seq_contains_ip(kept@, k0));
                            assert(self.entries@[j].bucket.spec_available(now_ms)
                                >= BURST_MILLITOKENS);
                        }
                    }
                }
            }
            i += 1;
        }
        self.entries = kept;
        proof {
            let s0 = old(self).entries@;
            assert forall|k: Seq<char>|
                old(self).contains_ip(k) && old(self).bucket_of(k).spec_available(now_ms)
                    < BURST_MILLITOKENS implies #[trigger] self.contains_ip(k) by {
                let w = seq_idx_of(s0, k);
                assert(0 <= w < s0.len() && s0[w].ip@ == k);
                lemma_idx_unique(s0, k, w);
            }
        }
    }
}

} // verus!
