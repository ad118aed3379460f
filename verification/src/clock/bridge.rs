//! Bridging the audio device clock to the monotonic clock.
//!
//! A device's callbacks carry timestamps with an origin of their own. Both clocks can be
//! read from any thread, so they are read back to back, many times, and the pair whose
//! two reads were closest together is kept. The residual error is bounded by that gap.

use crate::time::{Duration, Instant};
use vstd::prelude::*;

verus! {

/// How many correlation attempts to make. Cheap: two clock reads each.
pub const ATTEMPTS: usize = 64;

/// One attempt: the monotonic clock before and after a reading of the stream clock.
#[derive(Clone, Copy, PartialEq, Eq, Structural, Debug)]
pub struct Attempt {
    pub before: Instant,
    pub stream_nanos: u128,
    pub after: Instant,
}

#[derive(Clone, Copy, PartialEq, Eq, Structural, Debug)]
pub struct Bridge {
    /// The stream clock reading at the reference moment, in nanoseconds.
    pub stream_nanos: u128,
    /// The monotonic clock reading at the same moment.
    pub instant: Instant,
    /// Half the read-to-read gap of the winning pair: the error bound.
    pub uncertainty: Duration,
}

impl Attempt {
    /// The monotonic clock does not run backwards.
    pub open spec fn wf(self) -> bool {
        self.before.nanos <= self.after.nanos
    }

    pub open spec fn half_gap(self) -> int {
        (self.after.nanos - self.before.nanos) / 2
    }

    /// The stream was read somewhere between the two readings; the midpoint is the best
    /// single guess and halves the worst-case error.
    pub open spec fn bridge(self) -> Bridge {
        Bridge {
            stream_nanos: self.stream_nanos,
            instant: Instant { nanos: (self.before.nanos + self.half_gap()) as i64 },
            uncertainty: Duration { nanos: self.half_gap() as u128 },
        }
    }
}

/// `at`, moved by a span; unmoved where that would leave the clock's range.
pub open spec fn moved(at: Instant, by: int) -> Instant {
    if i64::MIN <= at.nanos + by <= i64::MAX {
        Instant { nanos: (at.nanos + by) as i64 }
    } else {
        at
    }
}

impl Bridge {
    fn candidate(a: Attempt) -> (r: Bridge)
        requires
            a.wf(),
        ensures
            r == a.bridge(),
    {
        let gap: i128 = a.after.since(a.before);
        let half: i128 = gap / 2;
        Bridge {
            stream_nanos: a.stream_nanos,
            instant: Instant { nanos: (a.before.nanos as i128 + half) as i64 },
            uncertainty: Duration { nanos: half as u128 },
        }
    }

    /// Correlate the two clocks: the first of the attempts with the least uncertainty.
    pub fn measure(attempts: &Vec<Attempt>) -> (r: Bridge)
        requires
            attempts@.len() > 0,
            forall|i: int| 0 <= i < attempts@.len() ==> attempts@[i].wf(),
        ensures
            exists|i: int|
                {
                    &&& 0 <= i < attempts@.len()
                    &&& r == attempts@[i].bridge()
                    &&& forall|j: int|
                        0 <= j < attempts@.len() ==> attempts@[i].half_gap()
                            <= attempts@[j].half_gap()
                    &&& forall|j: int|
                        0 <= j < i ==> attempts@[i].half_gap() < attempts@[j].half_gap()
                },
    {
        let mut best: Bridge = Self::candidate(attempts[0]);
        let mut k: usize = 1;
        let ghost mut won: int = 0;
        while k < attempts.len()
            invariant
                1 <= k <= attempts@.len(),
                forall|i: int| 0 <= i < attempts@.len() ==> attempts@[i].wf(),
                0 <= won < k,
                best == attempts@[won].bridge(),
                forall|j: int| 0 <= j < k ==> attempts@[won].half_gap() <= attempts@[j].half_gap(),
                forall|j: int| 0 <= j < won ==> attempts@[won].half_gap() < attempts@[j].half_gap(),
            decreases attempts@.len() - k,
        {
            let c: Bridge = Self::candidate(attempts[k]);
            assert(attempts@[k as int].wf() && attempts@[won].wf());
            if c.uncertainty.nanos < best.uncertainty.nanos {
                best = c;
                proof {
                    won = k as int;
                }
            }
            k = k + 1;
        }
        best
    }

    /// Where a stream timestamp falls on the monotonic clock.
    pub open spec fn instant_of(self, stream_nanos: u128) -> Instant {
        if stream_nanos >= self.stream_nanos {
            moved(self.instant, duration_of((stream_nanos - self.stream_nanos) as nat) as int)
        } else {
            moved(self.instant, -(duration_of((self.stream_nanos - stream_nanos) as nat) as int))
        }
    }

    /// Map a timestamp from an audio callback onto the monotonic clock.
    pub fn to_instant(&self, stream_nanos: u128) -> (r: Instant)
        ensures
            r == self.instant_of(stream_nanos),
    {
        let at: i128 = if stream_nanos >= self.stream_nanos {
            self.instant.nanos as i128 + nanos_to_duration(
                stream_nanos - self.stream_nanos,
            ).nanos as i128
        } else {
            self.instant.nanos as i128 - nanos_to_duration(
                self.stream_nanos - stream_nanos,
            ).nanos as i128
        };
        if at < i64::MIN as i128 || at > i64::MAX as i128 {
            self.instant
        } else {
            Instant { nanos: at as i64 }
        }
    }

    /// How far off this correlation could be.
    pub fn uncertainty(&self) -> (r: Duration)
        ensures
            r == self.uncertainty,
    {
        self.uncertainty
    }
}

/// Nanoseconds as a span whose whole seconds are counted in sixty-four bits.
pub open spec fn duration_of(n: nat) -> nat {
    ((n / 1_000_000_000) % 0x1_0000_0000_0000_0000) * 1_000_000_000 + n % 1_000_000_000
}

pub fn nanos_to_duration(n: u128) -> (r: Duration)
    ensures
        r.nanos == duration_of(n as nat),
        r.nanos < 0x1_0000_0000_0000_0000 * 1_000_000_000,
{
    let secs: u128 = (n / 1_000_000_000) % 0x1_0000_0000_0000_0000;
    Duration { nanos: secs * 1_000_000_000 + n % 1_000_000_000 }
}

/// The bridge keeps spans: two stream timestamps map to instants exactly as far apart,
/// wherever both stay on the clock.
pub proof fn law_bridge_keeps_spans(b: Bridge, s: u128, t: u128)
    requires
        i64::MIN <= b.instant.nanos + (s - b.stream_nanos) <= i64::MAX,
        i64::MIN <= b.instant.nanos + (t - b.stream_nanos) <= i64::MAX,
    ensures
        b.instant_of(t).nanos - b.instant_of(s).nanos == t - s,
        b.instant_of(b.stream_nanos) == b.instant,
{
    lemma_duration_of(if s >= b.stream_nanos { s - b.stream_nanos } else { b.stream_nanos - s });
    lemma_duration_of(if t >= b.stream_nanos { t - b.stream_nanos } else { b.stream_nanos - t });
}

/// A span that is short enough is counted exactly.
proof fn lemma_duration_of(n: int)
    requires
        0 <= n <= 0x1_0000_0000_0000_0000,
    ensures
        duration_of(n as nat) == n,
{
}

/// The bridge of an attempt stands in the middle of it: it takes the stream's reading to have been
/// made halfway between the two readings around it, and either of those is no further away than
/// the uncertainty, to within a nanosecond.
pub proof fn law_a_bridge_stands_in_the_middle(a: Attempt)
    requires
        a.wf(),
    ensures
        ({
            let b = a.bridge();
            &&& b.stream_nanos == a.stream_nanos
            &&& -1 <= 2 * b.instant.nanos - (a.before.nanos + a.after.nanos) <= 0
            &&& b.instant.nanos - a.before.nanos == b.uncertainty.nanos
            &&& 0 <= a.after.nanos - b.instant.nanos - b.uncertainty.nanos <= 1
        }),
{
}

/// Stream time and the monotonic clock run together: a stream timestamp so many nanoseconds past
/// the bridge falls as many nanoseconds past it on the monotonic clock, and one before it as many
/// before.
pub proof fn law_a_timestamp_falls_as_far_from_the_bridge(b: Bridge, t: u128)
    requires
        i64::MIN <= b.instant.nanos + (t - b.stream_nanos) <= i64::MAX,
    ensures
        b.instant_of(t).nanos == b.instant.nanos + (t - b.stream_nanos),
{
    lemma_duration_of(if t >= b.stream_nanos { t - b.stream_nanos } else { b.stream_nanos - t });
}

} // verus!
