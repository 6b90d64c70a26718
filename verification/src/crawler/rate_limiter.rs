//! The spacing of requests.
use vstd::prelude::*;

verus! {

/// Spaces requests out: each gets a slot, and slots lie at least the delay apart.
///
/// Times are nanoseconds on a clock that does not go backwards.
pub struct RateLimiter {
    next_allowed: u128,
    delay: u128,
}

/// The time of the next slot: now, or when the previous slot's delay is over.
pub open spec fn next_slot(next_allowed: int, now: int) -> int {
    if next_allowed > now {
        next_allowed
    } else {
        now
    }
}

impl RateLimiter {
    /// The earliest time of the next slot.
    pub closed spec fn free_from(&self) -> u128 {
        self.next_allowed
    }

    /// The time between slots.
    pub closed spec fn spacing(&self) -> u128 {
        self.delay
    }

    /// A limiter with `delay_ms` milliseconds between slots; the first slot is free at once.
    pub fn new(delay_ms: u64, now: u128) -> (r: Self)
        ensures
            r.free_from() == now,
            r.spacing() == delay_ms * 1_000_000,
    {
        RateLimiter { next_allowed: now, delay: delay_ms as u128 * 1_000_000 }
    }

    /// Whether a slot can be claimed: its delay ends within the range of the clock.
    pub fn can_claim(&self, now: u128) -> (r: bool)
        ensures
            r == (next_slot(self.free_from() as int, now as int) + self.spacing() <= u128::MAX),
    {
        let slot: u128 = if self.next_allowed > now {
            self.next_allowed
        } else {
            now
        };
        slot <= u128::MAX - self.delay
    }

    /// Claims the next slot; without a delay there is nothing to claim.
    pub fn claim(&mut self, now: u128) -> (r: Option<u128>)
        requires
            next_slot(old(self).free_from() as int, now as int) + old(self).spacing() <= u128::MAX,
        ensures
            final(self).spacing() == old(self).spacing(),
            match r {
                None => old(self).spacing() == 0 && final(self).free_from() == old(
                    self,
                ).free_from(),
                Some(slot) => old(self).spacing() > 0 && slot == next_slot(
                    old(self).free_from() as int,
                    now as int,
                ) && final(self).free_from() == slot + old(self).spacing(),
            },
    {
        if self.delay == 0 {
            return None;
        }
        let slot: u128 = if self.next_allowed > now {
            self.next_allowed
        } else {
            now
        };
        self.next_allowed = slot + self.delay;
        Some(slot)
    }
}

/// The time from `now` until `target`; none if that has passed.
pub fn time_until(target: u128, now: u128) -> (r: u128)
    ensures
        r == (if target > now {
            target - now
        } else {
            0
        }),
{
    if target > now {
        target - now
    } else {
        0
    }
}

/// The slots of requests that are made at the times `times`, one after the other.
pub open spec fn slots(next_allowed: int, delay: int, times: Seq<int>) -> Seq<int>
    decreases times.len(),
{
    if times.len() == 0 {
        Seq::empty()
    } else {
        let slot = next_slot(next_allowed, times[0]);
        seq![slot] + slots(slot + delay, delay, times.skip(1))
    }
}

/// However requests come in, their slots lie at least the delay apart, none lies before its
/// request, and none before the limiter was free.
pub proof fn law_slots_are_spaced(next_allowed: int, delay: int, times: Seq<int>, i: int, j: int)
    requires
        0 <= delay,
        0 <= i < j < times.len(),
    ensures
        slots(next_allowed, delay, times).len() == times.len(),
        slots(next_allowed, delay, times)[j] >= slots(next_allowed, delay, times)[i] + (j - i)
            * delay,
        slots(next_allowed, delay, times)[i] >= times[i],
        slots(next_allowed, delay, times)[i] >= next_allowed,
    decreases times.len(),
{
    lemma_slots(next_allowed, delay, times, i);
    lemma_slots(next_allowed, delay, times, j);
    let all = slots(next_allowed, delay, times);
    let slot = next_slot(next_allowed, times[0]);
    let rest = slots(slot + delay, delay, times.skip(1));
    assert(all =~= seq![slot] + rest);
    if i == 0 {
        lemma_slots(slot + delay, delay, times.skip(1), j - 1);
        assert(all[j] == rest[j - 1]);
        assert(slot + delay + (j - 1) * delay == slot + j * delay) by (nonlinear_arith);
    } else {
        law_slots_are_spaced(slot + delay, delay, times.skip(1), i - 1, j - 1);
        assert(all[i] == rest[i - 1] && all[j] == rest[j - 1]);
    }
}

/// The slot of a request lies neither before the request nor before the delays of those ahead.
proof fn lemma_slots(next_allowed: int, delay: int, times: Seq<int>, i: int)
    requires
        0 <= delay,
        0 <= i < times.len(),
    ensures
        slots(next_allowed, delay, times).len() == times.len(),
        slots(next_allowed, delay, times)[i] >= next_allowed + i * delay,
        slots(next_allowed, delay, times)[i] >= next_allowed,
        slots(next_allowed, delay, times)[i] >= times[i],
    decreases times.len(),
{
    let slot = next_slot(next_allowed, times[0]);
    let all = slots(next_allowed, delay, times);
    let rest = slots(slot + delay, delay, times.skip(1));
    assert(all =~= seq![slot] + rest);
    if times.len() > 1 {
        lemma_slots(slot + delay, delay, times.skip(1), if i > 0 {
            i - 1
        } else {
            0
        });
    } else {
        assert(times.skip(1).len() == 0);
    }
    if i > 0 {
        assert(all[i] == rest[i - 1]);
        assert(times.skip(1)[i - 1] == times[i]);
        assert(slot + delay + (i - 1) * delay == slot + i * delay) by (nonlinear_arith);
    }
}

/// No request waits longer than it must: a slot is the time of the request, or the moment at which
/// the limiter is free again.
pub proof fn law_slots_come_at_once(next_allowed: int, now: int)
    ensures
        next_allowed <= now ==> next_slot(next_allowed, now) == now,
        next_allowed >= now ==> next_slot(next_allowed, now) == next_allowed,
{
}

} // verus!
