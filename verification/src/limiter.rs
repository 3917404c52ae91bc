//! Sliding-window rate limiter: a trailing 60-second window bounds both the
//! number of admitted requests and their summed token cost. The caller reads
//! the clock and passes it in as plain milliseconds, so the decision logic is
//! fully deterministic and the caller owns the actual suspension.

use vstd::prelude::*;

verus! {

/// Length of the trailing window, in milliseconds.
pub const WINDOW_MS: u64 = 60_000;

/// Safety buffer added to a computed wait, in milliseconds.
pub const WAIT_BUFFER_MS: u64 = 100;

/// Fallback wait when the window is empty yet the request cannot be admitted
/// (a single request exceeding the whole token budget), in milliseconds.
pub const FALLBACK_WAIT_MS: u64 = 1_000;

/// Sum of the token costs of the logged requests.
pub open spec fn sum_costs(s: Seq<usize>) -> int
    decreases s.len(),
{
    if s.len() == 0 {
        0int
    } else {
        s[0] + sum_costs(s.drop_first())
    }
}

pub proof fn lemma_sum_nonneg(s: Seq<usize>)
    ensures
        sum_costs(s) >= 0,
    decreases s.len(),
{
    if s.len() > 0 {
        lemma_sum_nonneg(s.drop_first());
    }
}

pub proof fn lemma_sum_push(s: Seq<usize>, x: usize)
    ensures
        sum_costs(s.push(x)) == sum_costs(s) + x,
    decreases s.len(),
{
    let t = s.push(x);
    assert(t.len() == s.len() + 1);
    if s.len() == 0 {
        assert(t[0] == x);
        assert(t.drop_first() =~= Seq::<usize>::empty());
        assert(sum_costs(t) == t[0] + sum_costs(t.drop_first()));
        assert(sum_costs(Seq::<usize>::empty()) == 0);
        assert(sum_costs(s) == 0);
    } else {
        assert(t[0] == s[0]);
        assert(t.drop_first() =~= s.drop_first().push(x));
        lemma_sum_push(s.drop_first(), x);
        assert(sum_costs(t) == t[0] + sum_costs(t.drop_first()));
        assert(sum_costs(s) == s[0] + sum_costs(s.drop_first()));
    }
}

pub proof fn lemma_sum_skip(s: Seq<usize>, j: int)
    requires
        0 <= j <= s.len(),
    ensures
        sum_costs(s.skip(j)) <= sum_costs(s),
    decreases j,
{
    if j > 0 {
        assert(s.len() > 0);
        assert(s.skip(j) =~= s.drop_first().skip(j - 1));
        lemma_sum_skip(s.drop_first(), j - 1);
        assert(sum_costs(s) == s[0] + sum_costs(s.drop_first()));
    } else {
        assert(s.skip(0) =~= s);
    }
}

/// How many stale entries stand at the front of the (sorted) timestamp log:
/// those whose window has fully expired before `now_ms`.
pub open spec fn stale_prefix(ts: Seq<u64>, now_ms: u64) -> int
    decreases ts.len(),
{
    if ts.len() == 0 {
        0int
    } else if ts[0] + WINDOW_MS < now_ms {
        1 + stale_prefix(ts.drop_first(), now_ms)
    } else {
        0int
    }
}

pub proof fn lemma_stale_prefix_bound(ts: Seq<u64>, now_ms: u64)
    ensures
        0 <= stale_prefix(ts, now_ms) <= ts.len(),
    decreases ts.len(),
{
    if ts.len() > 0 && ts[0] + WINDOW_MS < now_ms {
        lemma_stale_prefix_bound(ts.drop_first(), now_ms);
    }
}

/// Sliding-window request/token budget guard. Configuration is fixed at
/// construction; the log of admitted requests still inside the window is the
/// sole mutable state.
pub struct RateLimiter {
    max_rpm: usize,
    max_tpm: usize,
    request_timestamps: Vec<u64>,
    token_counts: Vec<usize>,
}

impl RateLimiter {
    /// Maximum admitted requests per window.
    pub closed spec fn spec_max_rpm(self) -> usize {
        self.max_rpm
    }

    /// Maximum summed token cost per window.
    pub closed spec fn spec_max_tpm(self) -> usize {
        self.max_tpm
    }

    /// Timestamps (ms) of the admitted requests still in the log, oldest first.
    pub closed spec fn times(self) -> Seq<u64> {
        self.request_timestamps@
    }

    /// Token costs of the admitted requests still in the log, aligned with
    /// `times`.
    pub closed spec fn costs(self) -> Seq<usize> {
        self.token_counts@
    }

    /// The log invariant: aligned, chronologically ordered, and within the
    /// token budget.
    pub open spec fn well_formed(self) -> bool {
        &&& self.times().len() == self.costs().len()
        &&& (forall|i: int, j: int|
            0 <= i <= j < self.times().len() ==> self.times()[i] <= self.times()[j])
        &&& sum_costs(self.costs()) <= self.spec_max_tpm()
    }

    /// All logged timestamps lie at or before `now_ms`.
    pub open spec fn fresh_until(self, now_ms: u64) -> bool {
        forall|i: int| 0 <= i < self.times().len() ==> self.times()[i] <= now_ms
    }

    /// A fresh limiter with an empty log.
    pub fn new(max_rpm: usize, max_tpm: usize) -> (r: RateLimiter)
        ensures
            r.well_formed(),
            r.spec_max_rpm() == max_rpm,
            r.spec_max_tpm() == max_tpm,
            r.times().len() == 0,
            r.costs().len() == 0,
    {
        RateLimiter {
            max_rpm,
            max_tpm,
            request_timestamps: Vec::new(),
            token_counts: Vec::new(),
        }
    }

    /// Prune entries older than the window, then either admit the request
    /// (recording it and returning 0) or return a positive wait in
    /// milliseconds without recording anything. The wait is the time until the
    /// oldest surviving entry leaves the window, plus a fixed buffer, or a
    /// fixed fallback when the log is empty yet the request alone exceeds the
    /// token budget.
    pub fn check_and_update(&mut self, token_count: usize, now_ms: u64) -> (wait_ms: u64)
        requires
            old(self).well_formed(),
            old(self).fresh_until(now_ms),
            now_ms <= u64::MAX - WINDOW_MS - WAIT_BUFFER_MS,
        ensures
            final(self).well_formed(),
            final(self).fresh_until(now_ms),
            final(self).spec_max_rpm() == old(self).spec_max_rpm(),
            final(self).spec_max_tpm() == old(self).spec_max_tpm(),
            ({
                let k = stale_prefix(old(self).times(), now_ms);
                let kept_times = old(self).times().skip(k);
                let kept_costs = old(self).costs().skip(k);
                let admitted = kept_times.len() < old(self).spec_max_rpm() && sum_costs(kept_costs)
                    + token_count <= old(self).spec_max_tpm();
                &&& (wait_ms == 0 <==> admitted)
                &&& (admitted ==> final(self).times() == kept_times.push(now_ms))
                &&& (admitted ==> final(self).costs() == kept_costs.push(token_count))
                &&& (!admitted ==> final(self).times() == kept_times && final(self).costs()
                    == kept_costs)
                &&& (!admitted && kept_times.len() > 0 ==> wait_ms == (if kept_times[0] + WINDOW_MS
                    > now_ms {
                    kept_times[0] + WINDOW_MS - now_ms
                } else {
                    0
                }) + WAIT_BUFFER_MS)
                &&& (!admitted && kept_times.len() == 0 ==> wait_ms == FALLBACK_WAIT_MS)
            }),
    {
        let ghost old_times = self.request_timestamps@;
        let ghost old_costs = self.token_counts@;
        let ghost k = stale_prefix(old_times, now_ms);
        proof {
            lemma_stale_prefix_bound(old_times, now_ms);
        }
        // Drop expired entries from the front of the log.
        let ghost mut j: int = 0;
        proof {
            assert(self.request_timestamps@ =~= old_times.skip(0));
            assert(self.token_counts@ =~= old_costs.skip(0));
        }
        while self.request_timestamps.len() > 0 && self.request_timestamps[0] + WINDOW_MS < now_ms
            invariant
                now_ms <= u64::MAX - WINDOW_MS - WAIT_BUFFER_MS,
                0 <= j <= old_times.len(),
                self.request_timestamps@ == old_times.skip(j),
                self.token_counts@ == old_costs.skip(j),
                old_times.len() == old_costs.len(),
                k == stale_prefix(old_times, now_ms),
                k == j + stale_prefix(self.request_timestamps@, now_ms),
                self.max_rpm == old(self).max_rpm,
                self.max_tpm == old(self).max_tpm,
                forall|i: int|
                    0 <= i < old_times.len() ==> old_times[i] <= now_ms,
                forall|i: int, ii: int|
                    0 <= i <= ii < old_times.len() ==> old_times[i] <= old_times[ii],
                sum_costs(old_costs) <= self.max_tpm,
            decreases self.request_timestamps@.len(),
        {
            let ghost cur_times = self.request_timestamps@;
            let ghost cur_costs = self.token_counts@;
            self.request_timestamps.remove(0);
            self.token_counts.remove(0);
            proof {
                assert(cur_times.remove(0) =~= cur_times.drop_first());
                assert(cur_costs.remove(0) =~= cur_costs.drop_first());
                assert(cur_times.drop_first() =~= old_times.skip(j + 1));
                assert(cur_costs.drop_first() =~= old_costs.skip(j + 1));
                assert(stale_prefix(cur_times, now_ms) == 1 + stale_prefix(
                    cur_times.drop_first(),
                    now_ms,
                ));
                j = j + 1;
            }
        }
        proof {
            assert(stale_prefix(self.request_timestamps@, now_ms) == 0);
            assert(j == k);
        }
        let kept_len = self.request_timestamps.len();
        // Sum the surviving token costs.
        let ghost kept_costs = self.token_counts@;
        proof {
            lemma_sum_skip(old_costs, k);
            lemma_sum_nonneg(kept_costs);
            assert(kept_costs.subrange(0, kept_costs.len() as int) =~= kept_costs);
            assert(kept_costs.subrange(0, 0) =~= Seq::<usize>::empty());
        }
        let mut current_tokens: usize = 0;
        let mut i: usize = 0;
        while i < self.token_counts.len()
            invariant
                i <= kept_costs.len(),
                self.token_counts@ == kept_costs,
                sum_costs(kept_costs) <= self.max_tpm,
                current_tokens + sum_costs(kept_costs.skip(i as int)) == sum_costs(kept_costs),
                current_tokens <= self.max_tpm,
            decreases kept_costs.len() - i,
        {
            proof {
                let suffix = kept_costs.skip(i as int);
                assert(suffix[0] == kept_costs[i as int]);
                assert(suffix.drop_first() =~= kept_costs.skip(i + 1));
                lemma_sum_nonneg(suffix.drop_first());
            }
            current_tokens = current_tokens + self.token_counts[i];
            i += 1;
        }
        proof {
            assert(kept_costs.skip(kept_costs.len() as int) =~= Seq::<usize>::empty());
            assert(current_tokens == sum_costs(kept_costs));
        }
        // Decide.
        if kept_len >= self.max_rpm || token_count > self.max_tpm - current_tokens {
            if self.request_timestamps.len() > 0 {
                let oldest = self.request_timestamps[0];
                let expiry = oldest + WINDOW_MS;
                let wait = if expiry > now_ms {
                    expiry - now_ms
                } else {
                    0
                };
                wait + WAIT_BUFFER_MS
            } else {
                FALLBACK_WAIT_MS
            }
        } else {
            self.request_timestamps.push(now_ms);
            self.token_counts.push(token_count);
            proof {
                lemma_sum_push(kept_costs, token_count);
            }
            0
        }
    }
}

} // verus!
