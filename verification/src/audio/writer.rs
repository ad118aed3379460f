//! Turning device timestamps into UTC, and where a take's files go.
//!
//! Every time mark that the callback dropped is resolved from the device clock, through the
//! monotonic clock, to UTC, and the resulting pairs are what later reveal that a device is
//! really running a little off the rate it claims. Resolution happens while the mark is
//! fresh: the clock model describes the recent past well and the distant past badly. Marks
//! taken before the clock has synced cannot be resolved at all, so they are parked and
//! retried. That matters most for the very first mark, the recording's anchor.

use crate::audio::capture::TimeMark;
use crate::clock::bridge::Bridge;
use crate::clock::reference::Reference;
use crate::clock::ClockSample;
use crate::finalize::DriftFit;
use crate::float::ops;
use crate::float::F64;
use crate::latency::LatencyCorrection;
use crate::order;
use crate::text;
use crate::text::{push_decimal, region_is};
use crate::time::Instant;
use vstd::prelude::*;
use vstd::seq_lib::*;

verus! {

/// Ceiling on parked marks, so that a take that never syncs cannot grow without bound. At
/// one mark per second this is over an hour of waiting.
pub const MAX_PENDING: usize = 4096;

/// One resolved observation: this sample was captured at this UTC instant.
#[derive(Clone, Copy, PartialEq, Eq, Structural, Debug)]
pub struct DriftObservation {
    pub sample_index: u64,
    pub utc_unix_nanos: i128,
}

/// The order of observations: by sample.
pub open spec fn earlier(a: DriftObservation, b: DriftObservation) -> bool {
    a.sample_index < b.sample_index
}

/// A list of observations in sample order, those at one sample in the order they came.
pub open spec fn in_sample_order(s: Seq<DriftObservation>) -> Seq<DriftObservation> {
    order::sorted_by(s, |a: DriftObservation, b: DriftObservation| earlier(a, b))
}

/// The parked marks that a reference can place now, in order, corrected for latency.
pub open spec fn placed<R: Reference>(
    parked: Seq<(u64, Instant)>,
    reference: &R,
    latency: LatencyCorrection,
) -> Seq<DriftObservation>
    decreases parked.len(),
{
    if parked.len() == 0 {
        Seq::empty()
    } else {
        let rest = placed(parked.drop_last(), reference, latency);
        match reference.resolves_at(parked.last().1) {
            Some(utc) => rest.push(
                DriftObservation {
                    sample_index: parked.last().0,
                    utc_unix_nanos: latency.applied(utc as int) as i128,
                },
            ),
            None => rest,
        }
    }
}

/// The parked marks that it still cannot place, in order.
pub open spec fn unplaced<R: Reference>(parked: Seq<(u64, Instant)>, reference: &R) -> Seq<
    (u64, Instant),
>
    decreases parked.len(),
{
    if parked.len() == 0 {
        Seq::empty()
    } else {
        let rest = unplaced(parked.drop_last(), reference);
        match reference.resolves_at(parked.last().1) {
            Some(_) => rest,
            None => rest.push(parked.last()),
        }
    }
}

/// What a drift log holds.
pub ghost struct LogView {
    pub resolved: Seq<DriftObservation>,
    pub pending: Seq<(u64, Instant)>,
    pub abandoned: int,
}

/// What a mark is placed with: the way from the device clock to the monotonic clock, and the
/// latency to take off.
pub ghost struct Chain {
    pub bridge: Bridge,
    pub latency: LatencyCorrection,
}

impl Chain {
    /// Where a mark falls on the monotonic clock. Stream timestamps are counted in sixty-four
    /// bits of nanoseconds.
    pub open spec fn instant_of(self, mark: TimeMark) -> Instant {
        self.bridge.instant_of((mark.capture_nanos % 0x1_0000_0000_0000_0000) as u128)
    }
}

/// A log after one mark: resolved if the reference can place it, otherwise parked while
/// there is room, otherwise counted as abandoned.
pub open spec fn after_mark<R: Reference>(
    log: LogView,
    chain: Chain,
    mark: TimeMark,
    clock: &R,
) -> LogView {
    let at = chain.instant_of(mark);
    match clock.resolves_at(at) {
        Some(utc) => LogView {
            resolved: log.resolved.push(
                DriftObservation {
                    sample_index: mark.frame_index,
                    utc_unix_nanos: chain.latency.applied(utc as int) as i128,
                },
            ),
            ..log
        },
        None => if log.pending.len() < MAX_PENDING {
            LogView { pending: log.pending.push((mark.frame_index, at)), ..log }
        } else {
            LogView { abandoned: log.abandoned + 1, ..log }
        },
    }
}

/// A log after some marks, in order.
pub open spec fn after_marks<R: Reference>(
    log: LogView,
    chain: Chain,
    marks: Seq<TimeMark>,
    clock: &R,
) -> LogView
    decreases marks.len(),
{
    if marks.len() == 0 {
        log
    } else {
        after_mark(after_marks(log, chain, marks.drop_last(), clock), chain, marks.last(), clock)
    }
}

/// A log after everything parked was tried again.
pub open spec fn after_retry<R: Reference>(log: LogView, chain: Chain, clock: &R) -> LogView {
    if log.pending.len() == 0 {
        log
    } else {
        LogView {
            resolved: in_sample_order(
                log.resolved + placed(log.pending, clock, chain.latency),
            ),
            pending: unplaced(log.pending, clock),
            ..log
        }
    }
}

/// Where marks fall on the monotonic clock.
pub open spec fn instants_of(chain: Chain, marks: Seq<TimeMark>) -> Seq<Instant> {
    Seq::new(marks.len(), |i: int| chain.instant_of(marks[i]))
}

/// Where parked marks fall on it.
pub open spec fn parked_at(parked: Seq<(u64, Instant)>) -> Seq<Instant> {
    Seq::new(parked.len(), |i: int| parked[i].1)
}

/// Whether two references answer the same at each of some instants.
pub open spec fn agree<R: Reference, S: Reference>(a: &R, b: &S, at: Seq<Instant>) -> bool {
    forall|i: int| 0 <= i < at.len() ==> a.resolves_at(#[trigger] at[i]) == b.resolves_at(at[i])
}

proof fn lemma_placed_agree<R: Reference, S: Reference>(
    parked: Seq<(u64, Instant)>,
    a: &R,
    b: &S,
    latency: LatencyCorrection,
)
    requires
        agree(a, b, parked_at(parked)),
    ensures
        placed(parked, a, latency) == placed(parked, b, latency),
        unplaced(parked, a) == unplaced(parked, b),
    decreases parked.len(),
{
    if parked.len() > 0 {
        assert forall|i: int| 0 <= i < parked_at(parked.drop_last()).len() implies a.resolves_at(
            #[trigger] parked_at(parked.drop_last())[i],
        ) == b.resolves_at(parked_at(parked.drop_last())[i]) by {
            assert(parked_at(parked)[i] == parked_at(parked.drop_last())[i]);
        }
        lemma_placed_agree(parked.drop_last(), a, b, latency);
        assert(parked_at(parked)[parked.len() - 1] == parked.last().1);
    }
}

proof fn lemma_marks_agree<R: Reference, S: Reference>(
    log: LogView,
    chain: Chain,
    marks: Seq<TimeMark>,
    a: &R,
    b: &S,
)
    requires
        agree(a, b, parked_at(log.pending)),
        agree(a, b, instants_of(chain, marks)),
    ensures
        after_marks(log, chain, marks, a) == after_marks(log, chain, marks, b),
        agree(a, b, parked_at(after_marks(log, chain, marks, a).pending)),
    decreases marks.len(),
{
    if marks.len() > 0 {
        let fewer = marks.drop_last();
        assert forall|i: int| 0 <= i < instants_of(chain, fewer).len() implies a.resolves_at(
            #[trigger] instants_of(chain, fewer)[i],
        ) == b.resolves_at(instants_of(chain, fewer)[i]) by {
            assert(instants_of(chain, marks)[i] == instants_of(chain, fewer)[i]);
        }
        lemma_marks_agree(log, chain, fewer, a, b);
        assert(instants_of(chain, marks)[marks.len() - 1] == chain.instant_of(marks.last()));
        let before = after_marks(log, chain, fewer, a).pending;
        let after = after_marks(log, chain, marks, a).pending;
        assert forall|i: int| 0 <= i < parked_at(after).len() implies a.resolves_at(
            #[trigger] parked_at(after)[i],
        ) == b.resolves_at(parked_at(after)[i]) by {
            if i < before.len() {
                assert(parked_at(before)[i] == parked_at(after)[i]);
            }
        }
    }
}

/// A pass asks its reference only where its marks and the parked ones fall: two references
/// that agree there leave the same log.
pub proof fn law_a_pass_asks_only_at_its_marks<R: Reference, S: Reference>(
    log: LogView,
    chain: Chain,
    marks: Seq<TimeMark>,
    a: &R,
    b: &S,
)
    requires
        agree(a, b, parked_at(log.pending) + instants_of(chain, marks)),
    ensures
        after_retry(after_marks(log, chain, marks, a), chain, a) == after_retry(
            after_marks(log, chain, marks, b),
            chain,
            b,
        ),
{
    let parked = parked_at(log.pending);
    let all = parked + instants_of(chain, marks);
    assert forall|i: int| 0 <= i < parked.len() implies a.resolves_at(#[trigger] parked[i])
        == b.resolves_at(parked[i]) by {
        assert(all[i] == parked[i]);
    }
    assert forall|i: int| 0 <= i < marks.len() implies a.resolves_at(
        #[trigger] instants_of(chain, marks)[i],
    ) == b.resolves_at(instants_of(chain, marks)[i]) by {
        assert(all[parked.len() + i] == instants_of(chain, marks)[i]);
    }
    lemma_marks_agree(log, chain, marks, a, b);
    lemma_placed_agree(after_marks(log, chain, marks, a).pending, a, b, chain.latency);
}

/// The observation that a mark makes: its sample, at the UTC that the reference gives for its
/// instant, less the latency still owed, as far as there are instants for it.
pub open spec fn observed_at(sample: u64, utc: i128, owed: int) -> DriftObservation {
    DriftObservation {
        sample_index: sample,
        utc_unix_nanos: ops::clamped(utc - owed, i128::MIN as int, i128::MAX as int) as i128,
    }
}

/// A mark that can be placed adds one observation, at its sample and at its UTC less the latency
/// still owed. One that cannot adds none, and is parked where there is room.
pub proof fn law_a_mark_is_timed_less_the_latency<R: Reference>(
    log: LogView,
    chain: Chain,
    mark: TimeMark,
    clock: &R,
)
    ensures
        ({
            let at = chain.bridge.instant_of((mark.capture_nanos % 0x1_0000_0000_0000_0000) as u128);
            let after = after_mark(log, chain, mark, clock);
            match clock.resolves_at(at) {
                Some(utc) => {
                    &&& after.resolved == log.resolved.push(
                        observed_at(mark.frame_index, utc, chain.latency.total()),
                    )
                    &&& after.pending == log.pending
                    &&& after.abandoned == log.abandoned
                },
                None => {
                    &&& after.resolved == log.resolved
                    &&& after.pending.len() + after.abandoned == log.pending.len() + log.abandoned
                        + 1
                    &&& log.pending.len() < MAX_PENDING ==> after.pending == log.pending.push(
                        (mark.frame_index, at),
                    )
                    &&& log.pending.len() >= MAX_PENDING ==> after.pending == log.pending
                },
            }
        }),
{
}

/// What retrying makes of parked marks: of those that can be placed now, in order, their samples
/// at their UTC less the latency still owed; the others stay parked, in order.
pub proof fn law_parked_marks_are_timed_less_the_latency<R: Reference>(
    parked: Seq<(u64, Instant)>,
    clock: &R,
    latency: LatencyCorrection,
)
    ensures
        placed(parked, clock, latency) == parked.filter(
            |m: (u64, Instant)| clock.resolves_at(m.1) is Some,
        ).map_values(
            |m: (u64, Instant)| observed_at(m.0, clock.resolves_at(m.1)->0, latency.total()),
        ),
        unplaced(parked, clock) == parked.filter(
            |m: (u64, Instant)| clock.resolves_at(m.1) is None,
        ),
    decreases parked.len(),
{
    reveal(Seq::filter);
    let can = |m: (u64, Instant)| clock.resolves_at(m.1) is Some;
    let cannot = |m: (u64, Instant)| clock.resolves_at(m.1) is None;
    let made = |m: (u64, Instant)|
        observed_at(m.0, clock.resolves_at(m.1)->0, latency.total());
    if parked.len() > 0 {
        law_parked_marks_are_timed_less_the_latency(parked.drop_last(), clock, latency);
        assert(placed(parked, clock, latency) =~= parked.filter(can).map_values(made));
        assert(unplaced(parked, clock) =~= parked.filter(cannot));
    } else {
        assert(placed(parked, clock, latency) =~= parked.filter(can).map_values(made));
        assert(unplaced(parked, clock) =~= parked.filter(cannot));
    }
}

/// Retrying leaves exactly the observations that were there and those that the parked marks
/// make, in sample order.
pub proof fn law_a_retry_adds_what_the_parked_marks_make<R: Reference>(
    log: LogView,
    chain: Chain,
    clock: &R,
)
    ensures
        ({
            let after = after_retry(log, chain, clock);
            let made = log.pending.filter(
                |m: (u64, Instant)| clock.resolves_at(m.1) is Some,
            ).map_values(
                |m: (u64, Instant)|
                    observed_at(m.0, clock.resolves_at(m.1)->0, chain.latency.total()),
            );
            &&& after.resolved.to_multiset() == (log.resolved + made).to_multiset()
            &&& after.pending == log.pending.filter(
                |m: (u64, Instant)| clock.resolves_at(m.1) is None,
            )
            &&& after.abandoned == log.abandoned
            &&& log.pending.len() > 0 ==> forall|i: int, j: int|
                0 <= i < j < after.resolved.len() ==> (#[trigger] after.resolved[i]).sample_index
                    <= (#[trigger] after.resolved[j]).sample_index
        }),
{
    let less = |a: DriftObservation, b: DriftObservation| earlier(a, b);
    law_parked_marks_are_timed_less_the_latency(log.pending, clock, chain.latency);
    let made = placed(log.pending, clock, chain.latency);
    order::law_sorting_keeps_the_items(log.resolved + made, less);
    order::law_sorting_orders(log.resolved + made, less);
    if log.pending.len() == 0 {
        assert(made.len() == 0);
        assert(log.resolved + made =~= log.resolved);
        assert(unplaced(log.pending, clock) =~= log.pending);
    } else {
        let after = after_retry(log, chain, clock).resolved;
        assert forall|i: int, j: int| 0 <= i < j < after.len() implies (
        #[trigger] after[i]).sample_index <= (#[trigger] after[j]).sample_index by {
            assert(!less(after[j], after[i]));
        }
    }
}

/// Parking does not change a mark's timestamp: a mark taken in while the reference could not
/// place it and retried with one that can leaves the same observations, and the same marks
/// parked, as one that was taken in with that reference at once.
pub proof fn law_parking_changes_no_timestamp<R: Reference, S: Reference>(
    log: LogView,
    chain: Chain,
    mark: TimeMark,
    blind: &R,
    seeing: &S,
)
    requires
        blind.resolves_at(chain.instant_of(mark)) is None,
        seeing.resolves_at(chain.instant_of(mark)) is Some,
        log.pending.len() < MAX_PENDING,
    ensures
        ({
            let late = after_retry(after_mark(log, chain, mark, blind), chain, seeing);
            let at_once = after_retry(after_mark(log, chain, mark, seeing), chain, seeing);
            &&& late.resolved.to_multiset() == at_once.resolved.to_multiset()
            &&& late.pending == at_once.pending
            &&& late.abandoned == at_once.abandoned
        }),
{
    broadcast use group_to_multiset_ensures;

    let parked = after_mark(log, chain, mark, blind);
    let taken = after_mark(log, chain, mark, seeing);
    let at = chain.instant_of(mark);
    let less = |a: DriftObservation, b: DriftObservation| earlier(a, b);
    let before = placed(log.pending, seeing, chain.latency);
    let late = parked.resolved + placed(parked.pending, seeing, chain.latency);
    let at_once = taken.resolved + before;
    assert(parked.pending.drop_last() =~= log.pending);
    assert(parked.pending.last() == (mark.frame_index, at));
    let d = observed_at(mark.frame_index, seeing.resolves_at(at)->0, chain.latency.total());
    assert(late =~= (log.resolved + before).push(d));
    assert(taken.resolved =~= log.resolved.push(d));
    assert(at_once =~= (log.resolved + before).insert(log.resolved.len() as int, d));
    order::law_sorting_keeps_the_items(late, less);
    order::law_sorting_keeps_the_items(at_once, less);
    if log.pending.len() == 0 {
        assert(before.len() == 0);
        assert(at_once =~= taken.resolved);
    }
}

/// A take whose first mark had to wait is anchored as one whose first mark did not: at the UTC
/// of that mark, less the latency still owed.
pub proof fn law_the_anchor_is_the_first_mark_less_the_latency<R: Reference, S: Reference>(
    log: LogView,
    chain: Chain,
    mark: TimeMark,
    blind: &R,
    seeing: &S,
)
    requires
        mark.frame_index == 0,
        blind.resolves_at(chain.instant_of(mark)) is None,
        seeing.resolves_at(chain.instant_of(mark)) is Some,
        log.pending.len() < MAX_PENDING,
        forall|i: int| 0 <= i < log.resolved.len() ==> (#[trigger] log.resolved[i]).sample_index > 0,
        forall|i: int| 0 <= i < log.pending.len() ==> (#[trigger] log.pending[i]).0 > 0,
    ensures
        ({
            let utc = seeing.resolves_at(chain.instant_of(mark))->0;
            let anchor = ops::clamped(
                utc - chain.latency.total(),
                i128::MIN as int,
                i128::MAX as int,
            );
            let late = after_retry(after_mark(log, chain, mark, blind), chain, seeing);
            let at_once = after_mark(log, chain, mark, seeing);
            &&& anchor_of(late.resolved) == Some(anchor as i128)
            &&& anchor_of(at_once.resolved) == Some(anchor as i128)
        }),
{
    broadcast use group_to_multiset_ensures;

    let at = chain.instant_of(mark);
    let d = observed_at(0, seeing.resolves_at(at)->0, chain.latency.total());
    let late = after_retry(after_mark(log, chain, mark, blind), chain, seeing).resolved;
    let at_once = after_mark(log, chain, mark, seeing).resolved;
    assert(at_once == log.resolved.push(d));
    assert(at_once[log.resolved.len() as int] == d);
    lemma_anchor(at_once, d);
    let parked = after_mark(log, chain, mark, blind).pending;
    assert(parked.drop_last() =~= log.pending);
    let before = placed(log.pending, seeing, chain.latency);
    let all = log.resolved + before.push(d);
    lemma_placed_samples(log.pending, seeing, chain.latency);
    order::law_sorting_keeps_the_items(
        all,
        |a: DriftObservation, b: DriftObservation| earlier(a, b),
    );
    assert(placed(parked, seeing, chain.latency) == before.push(d));
    assert(late.to_multiset() == all.to_multiset());
    assert(all[all.len() - 1] == d);
    assert(all.contains(d));
    assert(all.to_multiset().count(d) > 0);
    assert(late.contains(d));
    assert forall|i: int| 0 <= i < late.len() implies (#[trigger] late[i]) == d
        || late[i].sample_index > 0 by {
        assert(late.contains(late[i]));
        assert(late.to_multiset().count(late[i]) > 0);
        assert(all.contains(late[i]));
        let j = choose|j: int| 0 <= j < all.len() && all[j] == late[i];
        if j < log.resolved.len() {
            assert(all[j] == log.resolved[j]);
        } else if j < all.len() - 1 {
            assert(all[j] == before[j - log.resolved.len()]);
        }
    }
    lemma_anchor(late, d);
}

/// Where only one observation is of sample zero, it is the anchor.
proof fn lemma_anchor(s: Seq<DriftObservation>, d: DriftObservation)
    requires
        d.sample_index == 0,
        s.contains(d),
        forall|i: int|
            0 <= i < s.len() ==> (#[trigger] s[i]) == d || s[i].sample_index > 0,
    ensures
        anchor_of(s) == Some(d.utc_unix_nanos),
    decreases s.len(),
{
    let i = choose|i: int| 0 <= i < s.len() && s[i] == d;
    if s[0].sample_index != 0 {
        let rest = s.skip(1);
        assert(rest[i - 1] == d);
        assert forall|j: int| 0 <= j < rest.len() implies (#[trigger] rest[j]) == d
            || rest[j].sample_index > 0 by {
            assert(rest[j] == s[j + 1]);
        }
        lemma_anchor(rest, d);
    }
}

/// Placed marks keep their samples.
proof fn lemma_placed_samples<R: Reference>(
    parked: Seq<(u64, Instant)>,
    clock: &R,
    latency: LatencyCorrection,
)
    requires
        forall|i: int| 0 <= i < parked.len() ==> (#[trigger] parked[i]).0 > 0,
    ensures
        forall|i: int|
            0 <= i < placed(parked, clock, latency).len() ==> (#[trigger] placed(
                parked,
                clock,
                latency,
            )[i]).sample_index > 0,
    decreases parked.len(),
{
    if parked.len() > 0 {
        let fewer = parked.drop_last();
        assert forall|i: int| 0 <= i < fewer.len() implies (#[trigger] fewer[i]).0 > 0 by {
            assert(fewer[i] == parked[i]);
        }
        lemma_placed_samples(fewer, clock, latency);
        assert(parked[parked.len() - 1].0 > 0);
        let rest = placed(fewer, clock, latency);
        let all = placed(parked, clock, latency);
        assert forall|i: int| 0 <= i < all.len() implies (#[trigger] all[i]).sample_index > 0 by {
            if i < rest.len() {
                assert(all[i] == rest[i]);
            }
        }
    }
}

/// The UTC of the first observation at sample zero.
pub open spec fn anchor_of(s: Seq<DriftObservation>) -> Option<i128>
    decreases s.len(),
{
    if s.len() == 0 {
        None
    } else if s[0].sample_index == 0 {
        Some(s[0].utc_unix_nanos)
    } else {
        anchor_of(s.skip(1))
    }
}

/// Turns raw device time marks into UTC observations.
pub struct DriftLog {
    pub bridge: Bridge,
    /// Input latency still to be removed, beyond whatever the backend already handled.
    /// Signed, because a manual trim can over-correct the platform figure.
    pub latency: LatencyCorrection,
    pub resolved: Vec<DriftObservation>,
    /// Marks whose UTC is not yet knowable.
    pub pending: Vec<(u64, Instant)>,
    /// Marks dropped because too many were parked.
    pub abandoned: u64,
}

impl View for DriftLog {
    type V = LogView;

    open spec fn view(&self) -> LogView {
        LogView {
            resolved: self.resolved@,
            pending: self.pending@,
            abandoned: self.abandoned as int,
        }
    }
}

impl DriftLog {
    pub open spec fn wf(&self) -> bool {
        self.pending@.len() <= MAX_PENDING
    }

    /// Marks taken in so far: each is resolved, parked or abandoned.
    pub open spec fn marks_seen(&self) -> int {
        self.resolved@.len() + self.pending@.len() + self.abandoned
    }

    pub fn new(bridge: Bridge, latency: LatencyCorrection) -> (r: DriftLog)
        ensures
            r.wf(),
            r.bridge == bridge,
            r.latency == latency,
            r.resolved@.len() == 0,
            r.pending@.len() == 0,
            r.abandoned == 0,
    {
        DriftLog { bridge, latency, resolved: Vec::new(), pending: Vec::new(), abandoned: 0 }
    }

    pub open spec fn chain(&self) -> Chain {
        Chain { bridge: self.bridge, latency: self.latency }
    }

    /// Map a device timestamp onto the monotonic clock.
    ///
    /// Latency is applied afterwards, in the UTC domain, so that there is exactly one place
    /// that knows the sign convention.
    fn mark_instant(&self, mark: TimeMark) -> (r: Instant)
        ensures
            r == self.chain().instant_of(mark),
    {
        self.bridge.to_instant(mark.capture_nanos % 0x1_0000_0000_0000_0000)
    }

    /// The instants that taking in these marks asks the clock about: where the parked marks
    /// fall, and where these do.
    pub fn instants_due(&self, marks: &Vec<TimeMark>) -> (r: Vec<Instant>)
        ensures
            r@ == parked_at(self.pending@) + instants_of(self.chain(), marks@),
    {
        let mut out: Vec<Instant> = Vec::new();
        let mut i: usize = 0;
        while i < self.pending.len()
            invariant
                i <= self.pending@.len(),
                out@ == parked_at(self.pending@).take(i as int),
            decreases self.pending@.len() - i,
        {
            out.push(self.pending[i].1);
            assert(out@ =~= parked_at(self.pending@).take(i + 1));
            i = i + 1;
        }
        let mut k: usize = 0;
        assert(out@ =~= parked_at(self.pending@) + instants_of(self.chain(), marks@).take(0));
        while k < marks.len()
            invariant
                k <= marks@.len(),
                out@ == parked_at(self.pending@) + instants_of(self.chain(), marks@).take(k as int),
            decreases marks@.len() - k,
        {
            out.push(self.mark_instant(marks[k]));
            assert(out@ =~= parked_at(self.pending@) + instants_of(self.chain(), marks@).take(
                k + 1,
            ));
            k = k + 1;
        }
        assert(instants_of(self.chain(), marks@).take(k as int) =~= instants_of(
            self.chain(),
            marks@,
        ));
        out
    }

    /// Feed one mark. It is resolved immediately if the clock can place it, and otherwise
    /// parked while there is room.
    pub fn observe<R: Reference>(&mut self, mark: TimeMark, clock: &R)
        requires
            old(self).wf(),
            old(self).abandoned < u64::MAX,
        ensures
            final(self).wf(),
            final(self).chain() == old(self).chain(),
            final(self)@ == after_mark(old(self)@, old(self).chain(), mark, clock),
            final(self).marks_seen() == old(self).marks_seen() + 1,
    {
        let at: Instant = self.mark_instant(mark);
        match clock.utc_nanos(at) {
            Some(utc) => {
                let utc_unix_nanos: i128 = self.latency.apply(utc);
                self.resolved.push(
                    DriftObservation { sample_index: mark.frame_index, utc_unix_nanos },
                );
            },
            None => {
                if self.pending.len() < MAX_PENDING {
                    self.pending.push((mark.frame_index, at));
                } else {
                    self.abandoned = self.abandoned + 1;
                }
            },
        }
    }

    /// Retry everything parked. Call whenever the clock may have gained a sample.
    ///
    /// The observations end up in sample order, so that the drift fit sees a tidy series
    /// however long they waited.
    pub fn retry_pending<R: Reference>(&mut self, clock: &R)
        requires
            old(self).wf(),
        ensures
            final(self).wf(),
            final(self).chain() == old(self).chain(),
            final(self)@ == after_retry(old(self)@, old(self).chain(), clock),
            final(self).marks_seen() == old(self).marks_seen(),
    {
        if self.pending.len() == 0 {
            return;
        }
        let ghost parked = self.pending@;
        let ghost before = self.resolved@;
        let mut still: Vec<(u64, Instant)> = Vec::new();
        let mut i: usize = 0;
        while i < self.pending.len()
            invariant
                i <= parked.len(),
                self.pending@ == parked,
                self.bridge == old(self).bridge,
                self.latency == old(self).latency,
                self.abandoned == old(self).abandoned,
                still@ == unplaced(parked.take(i as int), clock),
                self.resolved@ == before + placed(parked.take(i as int), clock, self.latency),
                still@.len() + self.resolved@.len() == before.len() + i,
                still@.len() <= i,
            decreases parked.len() - i,
        {
            assert(parked.take(i + 1).drop_last() =~= parked.take(i as int));
            assert(parked.take(i + 1).last() == parked[i as int]);
            let (index, at) = self.pending[i];
            match clock.utc_nanos(at) {
                Some(utc) => {
                    let utc_unix_nanos: i128 = self.latency.apply(utc);
                    self.resolved.push(DriftObservation { sample_index: index, utc_unix_nanos });
                    assert(self.resolved@ =~= before + placed(
                        parked.take(i + 1),
                        clock,
                        self.latency,
                    ));
                },
                None => {
                    still.push((index, at));
                },
            }
            i = i + 1;
        }
        assert(parked.take(i as int) =~= parked);
        self.pending = still;
        let ghost all = self.resolved@;
        sort_observations(&mut self.resolved);
        proof {
            order::lemma_sorted_len(all, |a: DriftObservation, b: DriftObservation| earlier(a, b));
        }
    }

    pub fn observations(&self) -> (r: &Vec<DriftObservation>)
        ensures
            r@ == self.resolved@,
    {
        &self.resolved
    }

    /// UTC of the first captured sample: the recording's anchor.
    ///
    /// This is the observation at sample zero specifically, not merely the earliest one
    /// resolved: using a later mark as the anchor would silently shift the whole file.
    pub fn t0_unix_nanos(&self) -> (r: Option<i128>)
        ensures
            r == anchor_of(self.resolved@),
    {
        let mut i: usize = 0;
        assert(self.resolved@.skip(0) =~= self.resolved@);
        while i < self.resolved.len()
            invariant
                i <= self.resolved@.len(),
                anchor_of(self.resolved@) == anchor_of(self.resolved@.skip(i as int)),
            decreases self.resolved@.len() - i,
        {
            assert(self.resolved@.skip(i as int)[0] == self.resolved@[i as int]);
            assert(self.resolved@.skip(i as int).skip(1) =~= self.resolved@.skip(i + 1));
            if self.resolved[i].sample_index == 0 {
                return Some(self.resolved[i].utc_unix_nanos);
            }
            i = i + 1;
        }
        None
    }

    pub fn pending_count(&self) -> (r: usize)
        ensures
            r == self.pending@.len(),
    {
        self.pending.len()
    }

    pub fn abandoned_count(&self) -> (r: u64)
        ensures
            r == self.abandoned,
    {
        self.abandoned
    }
}

/// Puts observations in sample order.
fn sort_observations(v: &mut Vec<DriftObservation>)
    ensures
        final(v)@ == in_sample_order(old(v)@),
{
    let ghost less = |a: DriftObservation, b: DriftObservation| earlier(a, b);
    let ghost all = v@;
    let mut out: Vec<DriftObservation> = Vec::new();
    let mut done: usize = 0;
    while done < v.len()
        invariant
            done <= all.len(),
            v@ == all,
            less == (|a: DriftObservation, b: DriftObservation| earlier(a, b)),
            out@ == order::sorted_by(all.take(done as int), less),
        decreases all.len() - done,
    {
        let d: DriftObservation = v[done];
        let mut k: usize = out.len();
        proof {
            order::lemma_slot(out@, d, less);
            assert(out@.take(out@.len() as int) =~= out@);
        }
        while k > 0 && d.sample_index < out[k - 1].sample_index
            invariant
                k <= out@.len(),
                less == (|a: DriftObservation, b: DriftObservation| earlier(a, b)),
                order::slot(out@.take(k as int), d, less) == order::slot(out@, d, less),
            decreases k,
        {
            assert(out@.take(k as int).drop_last() =~= out@.take(k - 1));
            k = k - 1;
        }
        assert(order::slot(out@, d, less) == k);
        out.insert(k, d);
        assert(all.take(done + 1).drop_last() =~= all.take(done as int));
        done = done + 1;
    }
    assert(all.take(done as int) =~= all);
    *v = out;
}

/// Subdirectory holding live scratch captures.
///
/// The scratch file only survives when the correction could not be verified, so it lives
/// out of the way rather than beside the deliverable.
pub const SCRATCH_DIR: &'static str = ".syncrec-scratch";

/// Where the files of a take live.
#[derive(Clone, Debug)]
pub struct TakePaths {
    /// Written live at the device's own rate, inside the scratch directory. Deleted once a
    /// corrected file exists.
    pub raw: String,
    /// The Broadcast Wave file that ships.
    pub final_wav: String,
    /// The audit trail.
    pub sidecar: String,
}

/// A name inside a directory.
pub open spec fn joined(dir: Seq<char>, name: Seq<char>) -> Seq<char> {
    if name.len() > 0 && name[0] == '/' {
        name
    } else if dir.len() == 0 || dir.last() == '/' {
        dir + name
    } else {
        dir + "/"@ + name
    }
}

/// The name of a take's file with the given ending.
pub open spec fn take_name(base: Seq<char>, n: nat, ending: Seq<char>) -> Seq<char> {
    base + "-"@ + text::decimal(n) + ending
}

fn join(dir: &str, name: &str) -> (r: String)
    ensures
        r@ == joined(dir@, name@),
{
    let n: usize = name.unicode_len();
    if n > 0 && name.get_char(0) == '/' {
        return String::from_str(name);
    }
    let d: usize = dir.unicode_len();
    let mut s: String = String::from_str(dir);
    if d > 0 && dir.get_char(d - 1) != '/' {
        s.append("/");
    }
    s.append(name);
    s
}

fn named(base: &str, n: u32, ending: &str) -> (r: String)
    ensures
        r@ == take_name(base@, n as nat, ending@),
{
    let mut s: String = String::from_str(base);
    s.append("-");
    push_decimal(&mut s, n as u128);
    s.append(ending);
    s
}

/// The files of take `n` of a `base-N` sequence in `dir`.
pub fn take_paths(dir: &str, base: &str, n: u32) -> (r: TakePaths)
    ensures
        r.raw@ == joined(
            joined(dir@, SCRATCH_DIR@),
            take_name(base@, n as nat, ".raw.wav"@),
        ),
        r.final_wav@ == joined(dir@, take_name(base@, n as nat, ".wav"@)),
        r.sidecar@ == joined(dir@, take_name(base@, n as nat, ".json"@)),
{
    let scratch: String = join(dir, SCRATCH_DIR);
    let raw: String = named(base, n, ".raw.wav");
    let final_wav: String = named(base, n, ".wav");
    let sidecar: String = named(base, n, ".json");
    TakePaths {
        raw: join(scratch.as_str(), raw.as_str()),
        final_wav: join(dir, final_wav.as_str()),
        sidecar: join(dir, sidecar.as_str()),
    }
}

/// How many digits a text starts with.
pub open spec fn digit_run(s: Seq<char>) -> nat
    decreases s.len(),
{
    if s.len() == 0 || !text::is_digit(s[0]) {
        0
    } else {
        1 + digit_run(s.skip(1))
    }
}

/// Whether a text is one of the endings of a take's files.
pub open spec fn is_ending(s: Seq<char>) -> bool {
    s == ".wav"@ || s == ".raw.wav"@ || s == ".json"@
}

/// The number in `base-N.wav`, `base-N.raw.wav` or `base-N.json`, where it fits.
pub open spec fn number_in(name: Seq<char>, base: Seq<char>) -> Option<u32> {
    if !text::region(name, 0, base) || base.len() >= name.len() || name[base.len() as int] != '-' {
        None
    } else {
        let rest = name.skip((base.len() + 1) as int);
        let k = digit_run(rest) as int;
        let n = text::digits_number(rest.take(k));
        if k == 0 || !is_ending(rest.skip(k)) || n > u32::MAX {
            None
        } else {
            Some(n as u32)
        }
    }
}

/// Extract the take number from a file name. The digits have to be the whole of the segment
/// between the dash and the ending.
pub fn take_number(file_name: &str, base: &str) -> (r: Option<u32>)
    ensures
        r == number_in(file_name@, base@),
{
    let n: usize = file_name.unicode_len();
    let b: usize = base.unicode_len();
    if !region_is(file_name, 0, base) || b >= n || file_name.get_char(b) != '-' {
        return None;
    }
    let from: usize = b + 1;
    let ghost rest = file_name@.skip(from as int);
    let mut i: usize = from;
    let mut value: u64 = 0;
    let mut fits: bool = true;
    assert(rest.skip(0) =~= rest);
    assert(rest.take(0) =~= Seq::<char>::empty());
    while i < n && is_digit_char(file_name.get_char(i))
        invariant
            n == file_name@.len(),
            from <= i <= n,
            rest == file_name@.skip(from as int),
            digit_run(rest) == (i - from) + digit_run(rest.skip(i - from)),
            fits ==> value == text::digits_number(rest.take(i - from)) && value <= u32::MAX,
            !fits ==> text::digits_number(rest.take(i - from)) > u32::MAX,
        ensures
            i == n || !text::is_digit(file_name@[i as int]),
        decreases n - i,
    {
        let c: char = file_name.get_char(i);
        proof {
            let k = i - from;
            assert(rest.skip(k)[0] == file_name@[i as int]);
            assert(rest.skip(k).skip(1) =~= rest.skip(k + 1));
            assert(rest.take(k + 1).drop_last() =~= rest.take(k));
            assert(rest.take(k + 1).last() == file_name@[i as int]);
        }
        if fits {
            value = value * 10 + (c as u32 - 48) as u64;
            if value > u32::MAX as u64 {
                fits = false;
            }
        }
        i = i + 1;
    }
    proof {
        let k = i - from;
        assert(rest.skip(k).len() > 0 ==> rest.skip(k)[0] == file_name@[i as int]);
        assert(digit_run(rest) == k);
        assert(rest.skip(k) =~= file_name@.skip(i as int));
    }
    if i == from || !ends_take(file_name, i) || !fits {
        return None;
    }
    Some(value as u32)
}

fn is_digit_char(c: char) -> (r: bool)
    ensures
        r == text::is_digit(c),
{
    48 <= c as u32 && c as u32 <= 57
}

/// Whether what is left of a name from `from` on is an ending.
fn ends_take(name: &str, from: usize) -> (r: bool)
    requires
        from <= name@.len(),
    ensures
        r == is_ending(name@.skip(from as int)),
{
    tail_is(name, from, ".wav") || tail_is(name, from, ".raw.wav") || tail_is(name, from, ".json")
}

fn tail_is(name: &str, from: usize, ending: &str) -> (r: bool)
    requires
        from <= name@.len(),
    ensures
        r == (name@.skip(from as int) == ending@),
{
    let n: usize = name.unicode_len();
    let k: usize = ending.unicode_len();
    if n - from != k {
        return false;
    }
    assert(name@.skip(from as int) =~= name@.subrange(from as int, n as int));
    region_is(name, from, ending)
}

/// The highest take number among some file names, or zero.
pub open spec fn highest_in(names: Seq<String>, base: Seq<char>) -> int
    decreases names.len(),
{
    if names.len() == 0 {
        0
    } else {
        let rest = highest_in(names.drop_last(), base);
        match number_in(names.last()@, base) {
            Some(n) => if n > rest {
                n as int
            } else {
                rest
            },
            None => rest,
        }
    }
}

fn highest(names: &Vec<String>, base: &str) -> (r: u32)
    ensures
        r == highest_in(names@, base@),
{
    let mut best: u32 = 0;
    let mut i: usize = 0;
    while i < names.len()
        invariant
            i <= names@.len(),
            best == highest_in(names@.take(i as int), base@),
        decreases names@.len() - i,
    {
        assert(names@.take(i + 1).drop_last() =~= names@.take(i as int));
        assert(names@.take(i + 1).last() == names@[i as int]);
        if let Some(n) = take_number(names[i].as_str(), base) {
            if n > best {
                best = n;
            }
        }
        i = i + 1;
    }
    assert(names@.take(i as int) =~= names@);
    best
}

/// The number that comes next.
pub open spec fn next_number(names: Seq<String>, scratch: Seq<String>, base: Seq<char>) -> int {
    let a = highest_in(names, base);
    let b = highest_in(scratch, base);
    1 + if a > b {
        a
    } else {
        b
    }
}

/// Whether there is a number left for another take.
pub fn has_number_left(base: &str, names: &Vec<String>, scratch: &Vec<String>) -> (r: bool)
    ensures
        r == (next_number(names@, scratch@, base@) <= u32::MAX),
{
    highest(names, base) < u32::MAX && highest(scratch, base) < u32::MAX
}

/// Work out the next take in a `base-N` sequence, given the names of the files in the take
/// folder and in the scratch folder.
///
/// Continues past the highest take, so that numbering survives restarts and does not clobber
/// yesterday's work. An abandoned scratch capture still reserves its number.
pub fn next_take(dir: &str, base: &str, names: &Vec<String>, scratch: &Vec<String>) -> (r: (
    u32,
    TakePaths,
))
    requires
        next_number(names@, scratch@, base@) <= u32::MAX,
    ensures
        r.0 == next_number(names@, scratch@, base@),
        r.1.raw@ == joined(
            joined(dir@, SCRATCH_DIR@),
            take_name(base@, r.0 as nat, ".raw.wav"@),
        ),
        r.1.final_wav@ == joined(dir@, take_name(base@, r.0 as nat, ".wav"@)),
        r.1.sidecar@ == joined(dir@, take_name(base@, r.0 as nat, ".json"@)),
{
    let a: u32 = highest(names, base);
    let b: u32 = highest(scratch, base);
    let n: u32 = 1 + if a > b { a } else { b };
    (n, take_paths(dir, base, n))
}

/// The second look at a take's number: the number stands where none of the take's files is
/// there, and the next one is up where any of them is. A folder that could not be listed, or
/// that takes two spellings of a name for one, is only caught here. `None` where no number is
/// left.
pub fn next_free(dir: &str, base: &str, n: u32, taken: bool) -> (r: Option<(u32, TakePaths)>)
    ensures
        r is None <==> taken && n == u32::MAX,
        r is Some ==> ({
            let m = (r->0).0;
            let paths = (r->0).1;
            &&& m == n + if taken {
                1int
            } else {
                0
            }
            &&& paths.raw@ == joined(
                joined(dir@, SCRATCH_DIR@),
                take_name(base@, m as nat, ".raw.wav"@),
            )
            &&& paths.final_wav@ == joined(dir@, take_name(base@, m as nat, ".wav"@))
            &&& paths.sidecar@ == joined(dir@, take_name(base@, m as nat, ".json"@))
        }),
{
    if !taken {
        return Some((n, take_paths(dir, base, n)));
    }
    if n == u32::MAX {
        return None;
    }
    let m: u32 = n + 1;
    Some((m, take_paths(dir, base, m)))
}

/// The audit trail written alongside every take.
#[derive(Clone, Debug)]
pub struct Sidecar {
    pub t0_unix_nanos: Option<i128>,
    pub device_name: String,
    pub device_rate: u32,
    pub channels: u16,
    pub raw_frames: u64,
    pub clock_source: String,
    pub sync_state: String,
    pub clock_dispersion_s: Option<F64>,
    pub clock_slope_ppm: Option<F64>,
    pub clock_samples_accepted: Option<u64>,
    pub clock_samples_rejected: Option<u64>,
    /// The timecode at `t0`, as it reads on a slate, when the clock was a timecode source.
    pub start_timecode: Option<String>,
    /// The recording session that the rig shared, when the clock knows sessions.
    pub session_id: Option<String>,
    pub latency_trim_ms: F64,
    pub overruns: u64,
    pub marks_abandoned: u64,
    /// First error the audio backend reported, if any.
    pub stream_error: Option<String>,
    pub observations: Vec<DriftObservation>,
    /// The line through the observations, where they describe one.
    pub fit: Option<DriftFit>,
    /// Every exchange that the clock accepted; empty where it has none to show.
    pub ntp_log: Vec<ClockSample>,
}

/// A file name made from a take number gives the number back.
pub proof fn law_names_give_their_number_back(base: Seq<char>, n: u32, ending: Seq<char>)
    requires
        is_ending(ending),
    ensures
        number_in(take_name(base, n as nat, ending), base) == Some(n),
{
    let name = take_name(base, n as nat, ending);
    let digits = text::decimal(n as nat);
    reveal_strlit("-");
    reveal_strlit(".wav");
    reveal_strlit(".raw.wav");
    reveal_strlit(".json");
    text::lemma_decimal_reads_back(n as nat);
    assert(name.subrange(0, base.len() as int) =~= base);
    assert(name[base.len() as int] == '-');
    let rest = name.skip((base.len() + 1) as int);
    assert(rest =~= digits + ending);
    lemma_digit_run(digits, ending);
    assert(rest.take(digits.len() as int) =~= digits);
    assert(rest.skip(digits.len() as int) =~= ending);
}

/// Digits followed by something else run exactly as far as the digits go.
proof fn lemma_digit_run(digits: Seq<char>, after: Seq<char>)
    requires
        forall|i: int| 0 <= i < digits.len() ==> text::is_digit(#[trigger] digits[i]),
        after.len() > 0,
        !text::is_digit(after[0]),
    ensures
        digit_run(digits + after) == digits.len(),
    decreases digits.len(),
{
    let s = digits + after;
    if digits.len() == 0 {
        assert(s[0] == after[0]);
    } else {
        assert(s[0] == digits[0]);
        assert(s.skip(1) =~= digits.skip(1) + after);
        assert forall|i: int| 0 <= i < digits.skip(1).len() implies text::is_digit(
            #[trigger] digits.skip(1)[i],
        ) by {
            assert(digits.skip(1)[i] == digits[i + 1]);
        }
        lemma_digit_run(digits.skip(1), after);
    }
}

proof fn lemma_highest_bounds(names: Seq<String>, base: Seq<char>, i: int)
    requires
        0 <= i < names.len(),
        number_in(names[i]@, base) is Some,
    ensures
        number_in(names[i]@, base)->0 <= highest_in(names, base),
    decreases names.len(),
{
    if i < names.len() - 1 {
        assert(names.drop_last()[i] == names[i]);
        lemma_highest_bounds(names.drop_last(), base, i);
    }
}

/// The next take clobbers nothing: no file that is there already has the number of the next
/// take, so none of the take's names is taken.
pub proof fn law_the_next_take_is_free(
    names: Seq<String>,
    scratch: Seq<String>,
    base: Seq<char>,
    ending: Seq<char>,
    i: int,
)
    requires
        next_number(names, scratch, base) <= u32::MAX,
        is_ending(ending),
    ensures
        ({
            let n = next_number(names, scratch, base) as nat;
            &&& 0 <= i < names.len() ==> names[i]@ != take_name(base, n, ending)
            &&& 0 <= i < scratch.len() ==> scratch[i]@ != take_name(base, n, ending)
        }),
{
    let n = next_number(names, scratch, base);
    lemma_highest_nonnegative(names, base);
    lemma_highest_nonnegative(scratch, base);
    law_names_give_their_number_back(base, n as u32, ending);
    if 0 <= i < names.len() && names[i]@ == take_name(base, n as nat, ending) {
        lemma_highest_bounds(names, base, i);
    }
    if 0 <= i < scratch.len() && scratch[i]@ == take_name(base, n as nat, ending) {
        lemma_highest_bounds(scratch, base, i);
    }
}

proof fn lemma_highest_nonnegative(names: Seq<String>, base: Seq<char>)
    ensures
        highest_in(names, base) >= 0,
    decreases names.len(),
{
    if names.len() > 0 {
        lemma_highest_nonnegative(names.drop_last(), base);
    }
}

/// After a retry the observations are in sample order and hold exactly what they held and
/// what could be placed.
pub proof fn law_retry_orders_and_keeps(s: Seq<DriftObservation>)
    ensures
        order::ordered(
            in_sample_order(s),
            |a: DriftObservation, b: DriftObservation| earlier(a, b),
        ),
        in_sample_order(s).to_multiset() == s.to_multiset(),
{
    let less = |a: DriftObservation, b: DriftObservation| earlier(a, b);
    order::law_sorting_orders(s, less);
    order::law_sorting_keeps_the_items(s, less);
}

/// The observations are in the order of their samples, and nothing is added to them or lost.
pub proof fn law_observations_are_in_the_order_of_their_samples(s: Seq<DriftObservation>)
    ensures
        forall|i: int, j: int|
            0 <= i < j < in_sample_order(s).len() ==> (
            #[trigger] in_sample_order(s)[i]).sample_index <= (
            #[trigger] in_sample_order(s)[j]).sample_index,
        in_sample_order(s).to_multiset() == s.to_multiset(),
{
    law_retry_orders_and_keeps(s);
}

/// The anchor is the first of the observations at sample zero, where there is any.
pub proof fn law_the_anchor_is_sample_zero(s: Seq<DriftObservation>)
    ensures
        anchor_of(s) is Some ==> exists|i: int|
            {
                &&& 0 <= i < s.len()
                &&& #[trigger] s[i] == (DriftObservation {
                    sample_index: 0,
                    utc_unix_nanos: anchor_of(s)->0,
                })
                &&& forall|j: int| 0 <= j < i ==> (#[trigger] s[j]).sample_index != 0
            },
        anchor_of(s) is None ==> forall|i: int|
            0 <= i < s.len() ==> (#[trigger] s[i]).sample_index != 0,
    decreases s.len(),
{
    if s.len() > 0 && s[0].sample_index != 0 {
        let t = s.skip(1);
        law_the_anchor_is_sample_zero(t);
        if anchor_of(s) is Some {
            let i = choose|i: int|
                {
                    &&& 0 <= i < t.len()
                    &&& #[trigger] t[i] == (DriftObservation {
                        sample_index: 0,
                        utc_unix_nanos: anchor_of(t)->0,
                    })
                    &&& forall|j: int| 0 <= j < i ==> (#[trigger] t[j]).sample_index != 0
                };
            assert(s[i + 1] == t[i]);
            assert forall|j: int| 0 <= j < i + 1 implies (#[trigger] s[j]).sample_index != 0 by {
                if j > 0 {
                    assert(t[j - 1] == s[j]);
                }
            }
        } else {
            assert forall|i: int| 0 <= i < s.len() implies (#[trigger] s[i]).sample_index != 0 by {
                if i > 0 {
                    assert(t[i - 1] == s[i]);
                }
            }
        }
    } else if s.len() > 0 {
        assert(s[0] == (DriftObservation { sample_index: 0, utc_unix_nanos: anchor_of(s)->0 }));
    }
}

} // verus!
