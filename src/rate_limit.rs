use vstd::prelude::*;

verus! {

/// The requests of `log` still inside the window that ends at `now`.
pub open spec fn live(log: Seq<u64>, now: u64, window: u64) -> Seq<u64> {
    log.filter(|t: u64| now - t < window)
}

/// Sliding-window admission control. Times are milliseconds on a clock that
/// never goes back; the caller reads the clock and sleeps.
pub struct RateLimiter {
    max_requests: usize,
    window_ms: u64,
    requests: Vec<u64>,
}

impl RateLimiter {
    /// The admitted requests that have not been pruned, oldest first.
    pub closed spec fn log(&self) -> Seq<u64> {
        self.requests@
    }

    /// The most requests admitted within one window.
    pub closed spec fn limit(&self) -> nat {
        self.max_requests as nat
    }

    /// The window length.
    pub closed spec fn window(&self) -> u64 {
        self.window_ms
    }

    /// No admitted request lies after `now`.
    pub open spec fn before(&self, now: u64) -> bool {
        forall|i: int| 0 <= i < self.log().len() ==> #[trigger] self.log()[i] <= now
    }

    /// A limiter admitting `max_requests` per window of `window_ms`.
    pub fn new(max_requests: usize, window_ms: u64) -> (r: RateLimiter)
        ensures
            r.log() == Seq::<u64>::empty(),
            r.limit() == max_requests,
            r.window() == window_ms,
    {
        RateLimiter { max_requests, window_ms, requests: Vec::new() }
    }

    /// Drops the requests that fell out of the window ending at `now`.
    fn prune(&mut self, now: u64)
        requires
            old(self).before(now),
        ensures
            final(self).log() == live(old(self).log(), now, old(self).window()),
            final(self).limit() == old(self).limit(),
            final(self).window() == old(self).window(),
            final(self).before(now),
    {
        let ghost pred = |t: u64| now - t < self.window_ms;
        let mut kept: Vec<u64> = Vec::new();
        let mut i: usize = 0;
        assert forall|j: int| 0 <= j < self.requests@.len() implies #[trigger] self.requests@[j] <= now by {
            assert(self.log()[j] == self.requests@[j]);
        }
        assert(self.requests@.subrange(0, 0) =~= Seq::<u64>::empty());
        proof {
            reveal(Seq::filter);
        }
        while i < self.requests.len()
            invariant
                i <= self.requests@.len(),
                forall|j: int| 0 <= j < self.requests@.len() ==> #[trigger] self.requests@[j] <= now,
                pred == (|t: u64| now - t < self.window_ms),
                kept@ == self.requests@.subrange(0, i as int).filter(pred),
            decreases self.requests@.len() - i,
        {
            let t = self.requests[i];
            proof {
                reveal(Seq::filter);
                assert(self.requests@.subrange(0, i + 1).drop_last() =~= self.requests@.subrange(0, i as int));
            }
            if now - t < self.window_ms {
                kept.push(t);
            }
            i = i + 1;
        }
        assert(self.requests@.subrange(0, i as int) =~= self.requests@);
        proof {
            let s = self.requests@;
            assert forall|j: int| 0 <= j < kept@.len() implies #[trigger] kept@[j] <= now by {
                s.lemma_filter_contains_rev(pred, kept@[j]);
                assert(kept@.contains(kept@[j]));
            }
        }
        self.requests = kept;
    }

    /// Whether a request could be admitted at `now` without waiting; the
    /// requests outside the window are dropped, nothing is recorded.
    pub fn can_proceed(&mut self, now: u64) -> (r: bool)
        requires
            old(self).before(now),
        ensures
            final(self).log() == live(old(self).log(), now, old(self).window()),
            final(self).limit() == old(self).limit(),
            final(self).window() == old(self).window(),
            final(self).before(now),
            r == (final(self).log().len() < final(self).limit()),
    {
        self.prune(now);
        self.requests.len() < self.max_requests
    }

    /// Admits a request at `now` and returns 0, or, with the window full,
    /// records nothing and returns how long to wait until its oldest request
    /// falls out of it.
    pub fn acquire(&mut self, now: u64) -> (wait: u64)
        requires
            old(self).before(now),
        ensures
            final(self).limit() == old(self).limit(),
            final(self).window() == old(self).window(),
            final(self).before(now),
            ({
                let l = live(old(self).log(), now, old(self).window());
                if l.len() >= old(self).limit() && l.len() > 0 {
                    &&& wait == old(self).window() - (now - l[0])
                    &&& wait > 0
                    &&& final(self).log() == l
                } else {
                    &&& wait == 0
                    &&& final(self).log() == l.push(now)
                }
            }),
    {
        self.prune(now);
        if self.requests.len() >= self.max_requests && self.requests.len() > 0 {
            let oldest = self.requests[0];
            proof {
                let s = old(self).log();
                let pred = |t: u64| now - t < old(self).window();
                assert(self.requests@.contains(oldest));
                s.lemma_filter_contains_rev(pred, oldest);
                assert(pred(oldest));
            }
            self.window_ms - (now - oldest)
        } else {
            self.requests.push(now);
            0
        }
    }
}

} // verus!
