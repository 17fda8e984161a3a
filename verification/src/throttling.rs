//! Token-bucket rate limiting. The bucket holds at most one second's worth
//! of tokens (the rate). Time is a monotonic count of nanoseconds; the
//! caller turns the time since the last refill into the tokens earned
//! (elapsed seconds times the rate, rounded down) and hands both in.

use vstd::prelude::*;

verus! {

/// A token bucket for one direction of traffic.
pub struct ThrottleGroup {
    rate: u64,
    enabled: bool,
    tokens: u64,
    last_update: u64,
}

/// The bucket after earning `earned` tokens: capped at the rate.
pub open spec fn refilled(tokens: u64, earned: u64, rate: u64) -> u64 {
    if tokens + earned <= rate {
        (tokens + earned) as u64
    } else {
        rate
    }
}

impl ThrottleGroup {
    /// Bytes per second allowed.
    pub closed spec fn rate_view(&self) -> u64 {
        self.rate
    }

    /// Whether the limit is applied.
    pub closed spec fn enabled_view(&self) -> bool {
        self.enabled
    }

    /// Tokens (bytes) that may still be spent.
    pub closed spec fn tokens_view(&self) -> u64 {
        self.tokens
    }

    /// When the bucket was last refilled.
    pub closed spec fn last_update_view(&self) -> u64 {
        self.last_update
    }

    /// An enabled bucket never holds more than one second's worth.
    pub open spec fn wf(&self) -> bool {
        self.enabled_view() ==> self.tokens_view() <= self.rate_view()
    }

    /// A bucket for `rate` bytes per second made at time `now`: full when
    /// enabled, unlimited otherwise.
    pub fn new(rate: u64, enabled: bool, now: u64) -> (r: ThrottleGroup)
        ensures
            r.wf(),
            r.rate_view() == rate,
            r.enabled_view() == enabled,
            r.tokens_view() == (if enabled { rate } else { u64::MAX }),
            r.last_update_view() == now,
    {
        ThrottleGroup { rate, enabled, tokens: if enabled { rate } else { u64::MAX }, last_update: now }
    }

    /// At time `now`, adds the tokens `earned` since the last refill, up to
    /// the rate; a disabled bucket is left as it is, its clock too.
    pub fn update_tokens(&mut self, now: u64, earned: u64)
        ensures
            final(self).rate_view() == old(self).rate_view(),
            final(self).enabled_view() == old(self).enabled_view(),
            final(self).tokens_view() == (if old(self).enabled_view() {
                refilled(old(self).tokens_view(), earned, old(self).rate_view())
            } else {
                old(self).tokens_view()
            }),
            final(self).last_update_view() == (if old(self).enabled_view() { now } else { old(self).last_update_view() }),
            final(self).enabled_view() ==> final(self).tokens_view() <= final(self).rate_view(),
    {
        if !self.enabled {
            return;
        }
        let sum = self.tokens.saturating_add(earned);
        self.tokens = if sum <= self.rate { sum } else { self.rate };
        self.last_update = now;
    }

    /// Sets the rate, then refills at time `now` with the tokens earned
    /// meanwhile.
    pub fn set_rate(&mut self, rate: u64, now: u64, earned: u64)
        ensures
            final(self).last_update_view() == (if old(self).enabled_view() { now } else { old(self).last_update_view() }),
            final(self).rate_view() == rate,
            final(self).enabled_view() == old(self).enabled_view(),
            final(self).tokens_view() == (if old(self).enabled_view() {
                refilled(old(self).tokens_view(), earned, rate)
            } else {
                old(self).tokens_view()
            }),
            final(self).wf(),
    {
        self.rate = rate;
        self.update_tokens(now, earned);
    }

    /// Turns the limit on (and refills at time `now`) or off (unlimited
    /// tokens).
    pub fn set_enabled(&mut self, enabled: bool, now: u64, earned: u64)
        ensures
            final(self).last_update_view() == (if enabled { now } else { old(self).last_update_view() }),
            final(self).rate_view() == old(self).rate_view(),
            final(self).enabled_view() == enabled,
            final(self).tokens_view() == (if enabled {
                refilled(old(self).tokens_view(), earned, old(self).rate_view())
            } else {
                u64::MAX
            }),
            final(self).wf(),
    {
        self.enabled = enabled;
        if enabled {
            self.update_tokens(now, earned);
        } else {
            self.tokens = u64::MAX;
        }
    }

    /// Refills at time `now`, then spends `amount` tokens if the bucket
    /// holds them. A disabled bucket always allows the traffic and spends
    /// nothing.
    pub fn try_consume(&mut self, amount: u64, now: u64, earned: u64) -> (r: bool)
        ensures
            final(self).last_update_view() == (if old(self).enabled_view() { now } else { old(self).last_update_view() }),
            final(self).rate_view() == old(self).rate_view(),
            final(self).enabled_view() == old(self).enabled_view(),
            final(self).wf(),
            ({
                let t = refilled(old(self).tokens_view(), earned, old(self).rate_view());
                if !old(self).enabled_view() {
                    r && final(self).tokens_view() == old(self).tokens_view()
                } else if t >= amount {
                    r && final(self).tokens_view() == t - amount
                } else {
                    !r && final(self).tokens_view() == t
                }
            }),
    {
        self.update_tokens(now, earned);
        if !self.enabled {
            return true;
        }
        if self.tokens >= amount {
            self.tokens = self.tokens - amount;
            true
        } else {
            false
        }
    }

    /// Tokens still missing for `amount` bytes (zero when enough are held).
    pub fn tokens_needed(&self, amount: u64) -> (r: u64)
        ensures
            r == (if amount > self.tokens_view() { amount - self.tokens_view() } else { 0 }),
    {
        amount.saturating_sub(self.tokens)
    }

    /// The rate limit in bytes per second.
    pub fn rate(&self) -> (r: u64)
        ensures
            r == self.rate_view(),
    {
        self.rate
    }

    /// Whether the limit is applied.
    pub fn enabled(&self) -> (r: bool)
        ensures
            r == self.enabled_view(),
    {
        self.enabled
    }

    /// When the bucket was last refilled.
    pub fn last_update(&self) -> (r: u64)
        ensures
            r == self.last_update_view(),
    {
        self.last_update
    }

    /// Tokens that may still be spent.
    pub fn tokens(&self) -> (r: u64)
        ensures
            r == self.tokens_view(),
    {
        self.tokens
    }

    /// Turns the limit off and empties the bucket.
    pub fn destroy(&mut self)
        ensures
            final(self).rate_view() == old(self).rate_view(),
            final(self).last_update_view() == old(self).last_update_view(),
            !final(self).enabled_view(),
            final(self).tokens_view() == 0,
    {
        self.enabled = false;
        self.tokens = 0;
    }
}

/// How a client sets a limit: a rate turns the limit on at that rate,
/// none turns it off. `earned` is what the bucket earned by `now` at its old
/// rate; turning the limit on then refills again at `now`, with nothing more
/// earned.
pub fn apply_limit(group: &mut ThrottleGroup, rate: Option<u64>, now: u64, earned: u64)
    requires
        old(group).wf(),
    ensures
        final(group).wf(),
        final(group).enabled_view() == rate is Some,
        rate matches Some(r) ==> final(group).rate_view() == r && final(group).last_update_view() == now
            && final(group).tokens_view() == refilled(
            if old(group).enabled_view() { refilled(old(group).tokens_view(), earned, r) } else { old(group).tokens_view() },
            0,
            r,
        ),
        rate is None ==> final(group).rate_view() == old(group).rate_view() && final(group).tokens_view() == u64::MAX,
{
    match rate {
        Some(r) => {
            group.set_rate(r, now, earned);
            group.set_enabled(true, now, 0);
        },
        None => {
            group.set_enabled(false, now, 0);
        },
    }
}

/// A refill of an enabled bucket never takes tokens away and never goes
/// past one second's worth.
pub proof fn refill_bounded(g: ThrottleGroup, earned: u64)
    requires
        g.wf(),
    ensures
        g.enabled_view() ==> refilled(g.tokens_view(), earned, g.rate_view()) <= g.rate_view(),
        g.enabled_view() ==> g.tokens_view() <= refilled(g.tokens_view(), earned, g.rate_view()),
{
}

} // verus!
