//! How well an endpoint does, and when to look at it again.

use crate::net::IpAddr;
use crate::pool::double;
use crate::pool::double::Double;
use crate::time::{Duration, Instant};
use vstd::prelude::*;

verus! {

/// The absolute floor on the margin by which a challenger must be faster, for
/// endpoints that are all fast: five milliseconds.
pub const HYSTERESIS_FLOOR_NANOS: u128 = 5000000;

/// The relative margin: a fifth of the incumbent's round-trip time.
pub const HYSTERESIS_FRACTION: u128 = 5;

/// The share of the running average in the next one, in 2^54ths: the double-precision
/// number nearest to seven tenths.
pub const KEPT_SHARE: u128 = 12610078956637388;

/// The share of a sample in the next running average, in 2^54ths: the
/// double-precision number nearest to three tenths.
pub const SAMPLE_SHARE: u128 = 5404319552844595;

/// The running average after another sample, in whole nanoseconds: seven tenths of
/// what it was and three tenths of the sample, computed in double precision and cut
/// off behind the point.
pub open spec fn blended(prev: nat, sample: nat) -> nat {
    let kept = double::rounded(double::rounded(prev) * KEPT_SHARE as nat);
    let added = double::rounded(double::rounded(sample) * SAMPLE_SHARE as nat);
    let mean = double::rounded(kept + added) / 0x40_0000_0000_0000;
    if mean > u64::MAX {
        u64::MAX as nat
    } else {
        mean
    }
}

/// How far rounding can move the two parts of an average.
proof fn lemma_blended_parts(prev: nat, sample: nat)
    ensures
        ({
            let (p, s) = (double::rounded(prev), double::rounded(sample));
            let kept = double::rounded(p * KEPT_SHARE as nat);
            let added = double::rounded(s * SAMPLE_SHARE as nat);
            &&& prev * 9007199254740991 <= p * 9007199254740992 <= prev * 9007199254740993
            &&& sample * 9007199254740991 <= s * 9007199254740992 <= sample * 9007199254740993
            &&& p * KEPT_SHARE as nat == p * 12610078956637388
            &&& s * SAMPLE_SHARE as nat == s * 5404319552844595
            &&& p * 12610078956637388 * 9007199254740991 <= kept * 9007199254740992 <= p * 12610078956637388 * 9007199254740993
            &&& s * 5404319552844595 * 9007199254740991 <= added * 9007199254740992 <= s * 5404319552844595 * 9007199254740993
        }),
{
    let (p, s) = (double::rounded(prev), double::rounded(sample));
    assert(p * KEPT_SHARE as nat == p * 12610078956637388) by (nonlinear_arith)
        requires
            KEPT_SHARE == 12610078956637388,
    ;
    assert(s * SAMPLE_SHARE as nat == s * 5404319552844595) by (nonlinear_arith)
        requires
            SAMPLE_SHARE == 5404319552844595,
    ;
    double::law_rounding_is_close(prev);
    double::law_rounding_is_close(sample);
    double::law_rounding_is_close(p * KEPT_SHARE as nat);
    double::law_rounding_is_close(s * SAMPLE_SHARE as nat);
}

/// Blend a new sample into the running average. A single unlucky sample must not
/// hand the lead to a worse endpoint, and a faster one should still take it
/// within a few cycles.
pub fn ewma(prev: Duration, sample: Duration) -> (r: Duration)
    requires
        prev.valid(),
        sample.valid(),
    ensures
        r.nanos == blended(prev.nanos as nat, sample.nanos as nat),
        r.valid(),
{
    proof {
        lemma_blended_parts(prev.nanos as nat, sample.nanos as nat);
    }
    let kept = Double::of(prev.nanos).times(KEPT_SHARE);
    let added = Double::of(sample.nanos).times(SAMPLE_SHARE);
    Duration { nanos: kept.plus(added).whole() as u128 }
}

/// The average stays between what it was and the sample, but for what is lost behind
/// the point; and for spans of weeks, for one part in 2^51 as well.
pub proof fn law_average_lies_between(prev: nat, sample: nat)
    requires
        prev <= u64::MAX,
        sample <= u64::MAX,
    ensures
        prev <= sample ==> prev - prev / 0x8_0000_0000_0000 - 1 <= blended(prev, sample) <= sample + sample
            / 0x8_0000_0000_0000,
        sample <= prev ==> sample - sample / 0x8_0000_0000_0000 - 1 <= blended(prev, sample) <= prev + prev
            / 0x8_0000_0000_0000,
{
    lemma_blended_parts(prev, sample);
    let kept = double::rounded(double::rounded(prev) * KEPT_SHARE as nat);
    let added = double::rounded(double::rounded(sample) * SAMPLE_SHARE as nat);
    double::law_rounding_is_close(kept + added);
}

/// Whether a challenger is faster than an incumbent by more than the margin.
pub open spec fn is_faster(challenger: nat, incumbent: nat) -> bool {
    let share = incumbent / 5;
    let margin = if share > 5000000 {
        share
    } else {
        5000000
    };
    challenger + margin < incumbent
}

/// Whether a challenger is enough faster than an incumbent to overtake it.
pub fn beats(challenger: Duration, incumbent: Duration) -> (r: bool)
    requires
        challenger.valid(),
        incumbent.valid(),
    ensures
        r == is_faster(challenger.nanos as nat, incumbent.nanos as nat),
{
    let share = incumbent.nanos / HYSTERESIS_FRACTION;
    let margin = if share > HYSTERESIS_FLOOR_NANOS {
        share
    } else {
        HYSTERESIS_FLOOR_NANOS
    };
    challenger.nanos + margin < incumbent.nanos
}

/// Two endpoints never beat each other, and none beats itself.
pub proof fn law_overtaking_is_one_way(a: nat, b: nat)
    ensures
        is_faster(a, b) ==> !is_faster(b, a),
        !is_faster(a, a),
{
}

/// How well one endpoint does.
#[derive(Debug, Clone, Copy, PartialEq, Eq, Structural)]
pub struct Health {
    /// Smoothed round-trip time; none before the first success.
    pub rtt: Option<Duration>,
    pub consecutive_failures: u32,
    pub degraded: bool,
    /// When the endpoint is next due, by itself: a dead one backs off without
    /// slowing the whole pool.
    pub next_probe: Instant,
    /// The current delay, which doubles on each failure up to the interval.
    pub backoff: Duration,
}

/// The delay after another failure of a degraded endpoint.
pub open spec fn backed_off(backoff: Duration, interval: Duration) -> Duration {
    if backoff.nanos * 2 < interval.nanos {
        Duration { nanos: (backoff.nanos * 2) as u128 }
    } else {
        interval
    }
}

impl Health {
    /// The spans are measurable.
    pub open spec fn valid(self) -> bool {
        &&& self.rtt matches Some(d) ==> d.valid()
        &&& self.backoff.valid()
    }

    /// An endpoint that has not been looked at.
    pub open spec fn fresh(due: Instant, backoff: Duration) -> Self {
        Health { rtt: None, consecutive_failures: 0, degraded: false, next_probe: due, backoff }
    }

    /// The endpoint after a successful probe.
    pub open spec fn after_success(self, now: Instant, sample: Duration, interval: Duration, base: Duration) -> Self {
        Health {
            rtt: Some(
                match self.rtt {
                    None => sample,
                    Some(prev) => Duration { nanos: blended(prev.nanos as nat, sample.nanos as nat) as u128 },
                },
            ),
            consecutive_failures: 0,
            degraded: false,
            next_probe: Instant { nanos: (now.nanos + interval.nanos) as u128 },
            backoff: base,
        }
    }

    /// The endpoint after a failed probe. Below the threshold it is looked at again
    /// soon, as it may have been a dropped packet.
    pub open spec fn after_failure(self, now: Instant, threshold: u32, interval: Duration, base: Duration) -> Self {
        let failures = if self.consecutive_failures == u32::MAX {
            u32::MAX
        } else {
            (self.consecutive_failures + 1) as u32
        };
        let degraded = self.degraded || failures >= threshold;
        let backoff = if self.degraded {
            backed_off(self.backoff, interval)
        } else if degraded {
            base
        } else {
            self.backoff
        };
        let delay = if degraded {
            backoff
        } else {
            base
        };
        Health {
            rtt: self.rtt,
            consecutive_failures: failures,
            degraded,
            next_probe: Instant { nanos: (now.nanos + delay.nanos) as u128 },
            backoff,
        }
    }

    /// An endpoint that has not been looked at.
    pub fn new(due: Instant, backoff: Duration) -> (r: Self)
        ensures
            r == Health::fresh(due, backoff),
    {
        Health { rtt: None, consecutive_failures: 0, degraded: false, next_probe: due, backoff }
    }

    /// Take a successful probe.
    pub fn record_success(&mut self, now: Instant, sample: Duration, interval: Duration, base_backoff: Duration)
        requires
            old(self).valid(),
            sample.valid(),
            now.valid(),
            interval.valid(),
            base_backoff.valid(),
        ensures
            *final(self) == old(self).after_success(now, sample, interval, base_backoff),
            final(self).valid(),
    {
        let rtt = match self.rtt {
            None => sample,
            Some(prev) => ewma(prev, sample),
        };
        self.rtt = Some(rtt);
        self.consecutive_failures = 0;
        self.degraded = false;
        self.backoff = base_backoff;
        self.next_probe = Instant { nanos: now.nanos + interval.nanos };
    }

    /// Take a failed probe.
    pub fn record_failure(&mut self, now: Instant, threshold: u32, interval: Duration, base_backoff: Duration)
        requires
            old(self).valid(),
            now.valid(),
            interval.valid(),
            base_backoff.valid(),
        ensures
            *final(self) == old(self).after_failure(now, threshold, interval, base_backoff),
            final(self).valid(),
    {
        if self.consecutive_failures < u32::MAX {
            self.consecutive_failures = self.consecutive_failures + 1;
        }
        if !self.degraded && self.consecutive_failures >= threshold {
            self.degraded = true;
            self.backoff = base_backoff;
        } else if self.degraded {
            let doubled = self.backoff.nanos * 2;
            self.backoff = if doubled < interval.nanos {
                Duration { nanos: doubled }
            } else {
                interval
            };
        }
        let delay = if self.degraded {
            self.backoff
        } else {
            base_backoff
        };
        self.next_probe = Instant { nanos: now.nanos + delay.nanos };
    }
}

/// A success clears what failures have brought, and starts over with the delay.
pub proof fn law_recovery_clears_degradation(
    h: Health,
    now: Instant,
    sample: Duration,
    interval: Duration,
    base: Duration,
)
    ensures
        !h.after_success(now, sample, interval, base).degraded,
        h.after_success(now, sample, interval, base).consecutive_failures == 0,
        h.after_success(now, sample, interval, base).backoff == base,
        h.rtt is None ==> h.after_success(now, sample, interval, base).rtt == Some(sample),
{
}

/// A degraded endpoint is never looked at less often than a healthy one, nor
/// sooner than before, until it has reached the interval.
pub proof fn law_backoff_grows_to_the_interval(
    h: Health,
    now: Instant,
    threshold: u32,
    interval: Duration,
    base: Duration,
)
    requires
        h.degraded,
        h.backoff.nanos <= interval.nanos,
    ensures
        h.after_failure(now, threshold, interval, base).degraded,
        h.backoff.nanos <= h.after_failure(now, threshold, interval, base).backoff.nanos <= interval.nanos,
{
}

/// Where the first delay is within the interval, every later one is: a dead endpoint
/// never waits longer for its next probe than a live one.
pub proof fn law_no_delay_exceeds_the_interval(
    h: Health,
    now: Instant,
    sample: Duration,
    threshold: u32,
    interval: Duration,
    base: Duration,
)
    requires
        now.valid(),
        interval.valid(),
        base.nanos <= interval.nanos,
        h.backoff.nanos <= interval.nanos,
    ensures
        h.after_success(now, sample, interval, base).backoff.nanos <= interval.nanos,
        h.after_failure(now, threshold, interval, base).backoff.nanos <= interval.nanos,
        h.after_success(now, sample, interval, base).next_probe.nanos <= now.nanos + interval.nanos,
        h.after_failure(now, threshold, interval, base).next_probe.nanos <= now.nanos + interval.nanos,
{
}

// ---------------------------------------------------------------------------
// The health of every endpoint
// ---------------------------------------------------------------------------

/// The health of endpoints by address.
#[derive(Debug)]
pub struct HealthTable {
    entries: Vec<(IpAddr, Health)>,
}

spec fn entry_at(entries: Seq<(IpAddr, Health)>, a: IpAddr) -> int {
    choose|i: int| 0 <= i < entries.len() && (#[trigger] entries[i]).0 == a
}

spec fn has_entry(entries: Seq<(IpAddr, Health)>, a: IpAddr) -> bool {
    exists|i: int| 0 <= i < entries.len() && (#[trigger] entries[i]).0 == a
}

spec fn apart(entries: Seq<(IpAddr, Health)>) -> bool {
    forall|i: int, j: int|
        #![trigger entries[i], entries[j]]
        0 <= i < entries.len() && 0 <= j < entries.len() && entries[i].0 == entries[j].0 ==> i == j
}

spec fn as_map(entries: Seq<(IpAddr, Health)>) -> Map<IpAddr, Health> {
    Map::new(|a: IpAddr| has_entry(entries, a), |a: IpAddr| entries[entry_at(entries, a)].1)
}

spec fn came_from(entries: Seq<(IpAddr, Health)>, live: Seq<IpAddr>, n: int, e: (IpAddr, Health)) -> bool {
    exists|j: int| 0 <= j < n && #[trigger] entries[j] == e && live.contains(entries[j].0)
}

impl View for HealthTable {
    type V = Map<IpAddr, Health>;

    closed spec fn view(&self) -> Map<IpAddr, Health> {
        as_map(self.entries@)
    }
}

impl HealthTable {
    /// Every address has one entry.
    pub closed spec fn valid(&self) -> bool {
        apart(self.entries@)
    }

    /// A table without endpoints.
    pub fn new() -> (r: Self)
        ensures
            r.valid(),
            r@ == Map::<IpAddr, Health>::empty(),
    {
        let r = HealthTable { entries: Vec::new() };
        assert(r@ =~= Map::<IpAddr, Health>::empty());
        r
    }

    fn find(&self, a: IpAddr) -> (r: Option<usize>)
        ensures
            match r {
                Some(i) => i < self.entries@.len() && self.entries@[i as int].0 == a,
                None => !has_entry(self.entries@, a),
            },
    {
        let mut i: usize = 0;
        while i < self.entries.len()
            invariant
                i <= self.entries@.len(),
                forall|k: int| 0 <= k < i ==> (#[trigger] self.entries@[k]).0 != a,
            decreases self.entries@.len() - i,
        {
            if self.entries[i].0 == a {
                return Some(i);
            }
            i = i + 1;
        }
        None
    }

    /// The health of an endpoint.
    pub fn get(&self, a: IpAddr) -> (r: Option<Health>)
        requires
            self.valid(),
        ensures
            r == (if self@.contains_key(a) {
                Some(self@[a])
            } else {
                None
            }),
    {
        match self.find(a) {
            Some(i) => {
                assert(self.entries@[entry_at(self.entries@, a)].0 == a);
                Some(self.entries[i].1)
            },
            None => None,
        }
    }

    /// Set the health of an endpoint.
    pub fn set(&mut self, a: IpAddr, h: Health)
        requires
            old(self).valid(),
        ensures
            final(self).valid(),
            final(self)@ == old(self)@.insert(a, h),
    {
        let ghost before = self.entries@;
        match self.find(a) {
            Some(i) => {
                self.entries.set(i, (a, h));
                assert(self.entries@[i as int] == (a, h));
                assert forall|x: IpAddr| has_entry(self.entries@, x) == has_entry(before, x) by {
                    if has_entry(before, x) {
                        let k = entry_at(before, x);
                        assert(self.entries@[k].0 == x);
                    }
                    if has_entry(self.entries@, x) {
                        let k = entry_at(self.entries@, x);
                        assert(before[k].0 == x);
                    }
                }
                assert forall|x: IpAddr| has_entry(before, x) implies as_map(self.entries@)[x] == as_map(before).insert(
                    a,
                    h,
                )[x] by {
                    let k = entry_at(before, x);
                    assert(self.entries@[k].0 == x);
                    let m = entry_at(self.entries@, x);
                    assert(self.entries@[m].0 == x);
                    assert(before[m].0 == x);
                    assert(before[k].0 == x);
                    assert(k == m);
                }
            },
            None => {
                self.entries.push((a, h));
                assert(self.entries@[before.len() as int] == (a, h));
                assert(self.valid()) by {
                    assert forall|i: int, j: int|
                        #![trigger self.entries@[i], self.entries@[j]]
                        0 <= i < self.entries@.len() && 0 <= j < self.entries@.len() && self.entries@[i].0
                            == self.entries@[j].0 implies i == j by {
                        if i < before.len() {
                            assert(before[i] == self.entries@[i]);
                        }
                        if j < before.len() {
                            assert(before[j] == self.entries@[j]);
                        }
                    }
                }
                assert forall|x: IpAddr| has_entry(self.entries@, x) == (has_entry(before, x) || x == a) by {
                    if has_entry(before, x) {
                        let k = entry_at(before, x);
                        assert(self.entries@[k].0 == x);
                    }
                    if has_entry(self.entries@, x) && x != a {
                        let k = entry_at(self.entries@, x);
                        assert(before[k].0 == x);
                    }
                }
                assert forall|x: IpAddr| has_entry(self.entries@, x) implies as_map(self.entries@)[x] == as_map(
                    before,
                ).insert(a, h)[x] by {
                    let m = entry_at(self.entries@, x);
                    assert(self.entries@[m].0 == x);
                    if x == a {
                        assert(self.entries@[before.len() as int].0 == x);
                        assert(m == before.len());
                    } else {
                        assert(before[m].0 == x);
                        let k = entry_at(before, x);
                        assert(before[k].0 == x);
                        assert(k == m);
                    }
                }
            },
        }
        assert(self@ =~= as_map(before).insert(a, h));
    }

    /// Forget an endpoint.
    pub fn remove(&mut self, a: IpAddr)
        requires
            old(self).valid(),
        ensures
            final(self).valid(),
            final(self)@ == old(self)@.remove(a),
    {
        let mut keep: Vec<IpAddr> = Vec::new();
        let mut i: usize = 0;
        while i < self.entries.len()
            invariant
                i <= self.entries@.len(),
                *self == *old(self),
                forall|x: IpAddr|
                    #![trigger keep@.contains(x)]
                    keep@.contains(x) <==> x != a && exists|k: int|
                        0 <= k < i && (#[trigger] self.entries@[k]).0 == x,
            decreases self.entries@.len() - i,
        {
            let x = self.entries[i].0;
            let ghost before = keep@;
            if x != a {
                keep.push(x);
                assert(keep@[before.len() as int] == x);
            }
            proof {
                assert forall|y: IpAddr|
                    #![trigger keep@.contains(y)]
                    keep@.contains(y) <==> y != a && exists|k: int|
                        0 <= k < i + 1 && (#[trigger] self.entries@[k]).0 == y by {
                    if before.contains(y) {
                        let k = choose|k: int| 0 <= k < before.len() && before[k] == y;
                        assert(keep@[k] == y);
                    }
                    if keep@.contains(y) && y != x {
                        let k = choose|k: int| 0 <= k < keep@.len() && keep@[k] == y;
                        assert(before[k] == y);
                    }
                    assert(self.entries@[i as int].0 == x);
                }
            }
            i = i + 1;
        }
        self.retain(&keep);
        assert(self@ =~= old(self)@.remove(a)) by {
            assert forall|x: IpAddr| self@.contains_key(x) == old(self)@.remove(a).contains_key(x) by {
                assert(keep@.contains(x) || !keep@.contains(x));
            }
        }
    }

    /// Keep only the endpoints of a list, so that the table does not grow with
    /// every address that a name has ever had.
    pub fn retain(&mut self, live: &Vec<IpAddr>)
        requires
            old(self).valid(),
        ensures
            final(self).valid(),
            final(self)@ == old(self)@.restrict(live@.to_set()),
    {
        let ghost before = self.entries@;
        let mut kept: Vec<(IpAddr, Health)> = Vec::new();
        let mut i: usize = 0;
        while i < self.entries.len()
            invariant
                i <= self.entries@.len(),
                self.entries@ == before,
                apart(before),
                apart(kept@),
                forall|k: int| 0 <= k < kept@.len() ==> came_from(before, live@, i as int, #[trigger] kept@[k]),
                forall|j: int|
                    0 <= j < i && live@.contains(#[trigger] before[j].0) ==> exists|k: int|
                        0 <= k < kept@.len() && #[trigger] kept@[k] == before[j],
            decreases self.entries@.len() - i,
        {
            let (a, h) = self.entries[i];
            let ghost so_far = kept@;
            if holds(live, a) {
                kept.push((a, h));
                assert(kept@[so_far.len() as int] == before[i as int]);
                assert forall|k: int| 0 <= k < so_far.len() implies kept@[k] == so_far[k] by {}
                assert(apart(kept@)) by {
                    assert forall|x: int, y: int|
                        #![trigger kept@[x], kept@[y]]
                        0 <= x < kept@.len() && 0 <= y < kept@.len() && kept@[x].0 == kept@[y].0 implies x == y by {
                        if x < so_far.len() && y < so_far.len() {
                            assert(so_far[x].0 == so_far[y].0);
                        } else if x < so_far.len() {
                            assert(came_from(before, live@, i as int, so_far[x]));
                            let j = choose|j: int|
                                0 <= j < i && #[trigger] before[j] == so_far[x] && live@.contains(before[j].0);
                            assert(before[j].0 == before[i as int].0);
                        } else if y < so_far.len() {
                            assert(came_from(before, live@, i as int, so_far[y]));
                            let j = choose|j: int|
                                0 <= j < i && #[trigger] before[j] == so_far[y] && live@.contains(before[j].0);
                            assert(before[j].0 == before[i as int].0);
                        }
                    }
                }
            }
            proof {
                assert forall|k: int| 0 <= k < kept@.len() implies came_from(before, live@, i + 1, #[trigger] kept@[k]) by {
                    if k < so_far.len() {
                        assert(came_from(before, live@, i as int, so_far[k]));
                        let j = choose|j: int|
                            0 <= j < i && #[trigger] before[j] == so_far[k] && live@.contains(before[j].0);
                        assert(before[j] == kept@[k]);
                    } else {
                        assert(before[i as int] == kept@[k]);
                    }
                }
                assert forall|j: int| 0 <= j < i + 1 && live@.contains(#[trigger] before[j].0) implies exists|k: int|
                    0 <= k < kept@.len() && #[trigger] kept@[k] == before[j] by {
                    if j < i {
                        let k = choose|k: int| 0 <= k < so_far.len() && #[trigger] so_far[k] == before[j];
                        assert(kept@[k] == before[j]);
                    } else {
                        assert(kept@[so_far.len() as int] == before[j]);
                    }
                }
            }
            i = i + 1;
        }
        self.entries = kept;
        let ghost after = self.entries@;
        assert forall|x: IpAddr| has_entry(after, x) == (has_entry(before, x) && live@.contains(x)) by {
            if has_entry(after, x) {
                let k = entry_at(after, x);
                assert(after[k].0 == x);
                assert(came_from(before, live@, before.len() as int, after[k]));
                let j = choose|j: int|
                    0 <= j < before.len() && #[trigger] before[j] == after[k] && live@.contains(before[j].0);
                assert(before[j].0 == x);
            }
            if has_entry(before, x) && live@.contains(x) {
                let j = entry_at(before, x);
                assert(before[j].0 == x);
                let k = choose|k: int| 0 <= k < after.len() && #[trigger] after[k] == before[j];
                assert(after[k].0 == x);
            }
        }
        assert forall|x: IpAddr| has_entry(after, x) implies as_map(after)[x] == as_map(before)[x] by {
            let k = entry_at(after, x);
            assert(after[k].0 == x);
            assert(came_from(before, live@, before.len() as int, after[k]));
            let j = choose|j: int|
                0 <= j < before.len() && #[trigger] before[j] == after[k] && live@.contains(before[j].0);
            let m = entry_at(before, x);
            assert(before[j].0 == x);
            assert(before[m].0 == x);
            assert(j == m);
        }
        assert(self@ =~= as_map(before).restrict(live@.to_set())) by {
            assert forall|x: IpAddr| live@.to_set().contains(x) == live@.contains(x) by {}
        }
    }
}

/// Whether a list holds an address.
pub fn holds(list: &Vec<IpAddr>, a: IpAddr) -> (r: bool)
    ensures
        r == list@.contains(a),
{
    let mut i: usize = 0;
    while i < list.len()
        invariant
            i <= list@.len(),
            forall|k: int| 0 <= k < i ==> #[trigger] list@[k] != a,
        decreases list@.len() - i,
    {
        if list[i] == a {
            return true;
        }
        i = i + 1;
    }
    false
}

/// A challenger overtakes if and only if it is faster by more than five milliseconds
/// and by more than a fifth of the incumbent's time.
pub proof fn law_margin_is_five_milliseconds_and_a_fifth(challenger: nat, incumbent: nat)
    ensures
        is_faster(challenger, incumbent) <==> {
            &&& incumbent - challenger > 5000000
            &&& 5 * (incumbent - challenger) > incumbent
        },
{
}

/// A probe that succeeds is next repeated an interval later, one that fails after the
/// delay, and neither moves anything into the past.
pub proof fn law_next_probe_is_set(
    h: Health,
    now: Instant,
    sample: Duration,
    threshold: u32,
    interval: Duration,
    base: Duration,
)
    requires
        now.valid(),
        interval.valid(),
        base.valid(),
        h.backoff.valid(),
    ensures
        h.after_success(now, sample, interval, base).next_probe.nanos == now.nanos + interval.nanos,
        ({
            let f = h.after_failure(now, threshold, interval, base);
            &&& f.degraded ==> f.next_probe.nanos == now.nanos + f.backoff.nanos
            &&& !f.degraded ==> f.next_probe.nanos == now.nanos + base.nanos
            &&& f.rtt == h.rtt
        }),
{
}

/// Failures count one by one, and an endpoint is degraded by the failure that brings
/// them to the threshold; the first delay is then the base, and each later failure
/// doubles it, up to the interval.
pub proof fn law_threshold_of_failures_degrades(
    h: Health,
    now: Instant,
    threshold: u32,
    interval: Duration,
    base: Duration,
)
    requires
        interval.valid(),
        h.consecutive_failures < u32::MAX,
    ensures
        ({
            let f = h.after_failure(now, threshold, interval, base);
            &&& f.consecutive_failures == h.consecutive_failures + 1
            &&& !h.degraded ==> (f.degraded <==> h.consecutive_failures + 1 >= threshold)
            &&& h.degraded ==> f.degraded
            &&& !h.degraded && f.degraded ==> f.backoff == base
            &&& !f.degraded ==> f.backoff == h.backoff
            &&& h.degraded && 2 * h.backoff.nanos <= interval.nanos ==> f.backoff.nanos == 2 * h.backoff.nanos
            &&& h.degraded && 2 * h.backoff.nanos >= interval.nanos ==> f.backoff.nanos == interval.nanos
        }),
{
}

/// A sample moves the average towards itself: where the average was below the sample
/// by a few nanoseconds at least, it rises, and where it was above, it falls.
pub proof fn law_average_follows_the_samples(prev: nat, sample: nat)
    requires
        prev <= 0x8_0000_0000_0000,
        sample <= 0x8_0000_0000_0000,
    ensures
        10 * blended(prev, sample) <= 7 * prev + 3 * sample + 10,
        10 * blended(prev, sample) + 20 >= 7 * prev + 3 * sample,
{
    lemma_blended_parts(prev, sample);
    let kept = double::rounded(double::rounded(prev) * KEPT_SHARE as nat);
    let added = double::rounded(double::rounded(sample) * SAMPLE_SHARE as nat);
    double::law_rounding_is_close(kept + added);
}

} // verus!
