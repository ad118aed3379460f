//! The capture path's bookkeeping.
//!
//! The audio callback hands its samples on, folds them into the meters, and drops a
//! timestamped mark roughly once a second so that the device's true sample rate can be
//! worked out later. It does not read the wall clock: one moment is anchored and samples
//! are counted from there.

use crate::audio::meters::{Ballistics, Meters};
use crate::audio::ring;
use crate::audio::ring::{mark_ring, sample_ring, send_mark, send_samples};
use crate::audio::Negotiated;
use crate::float::F32;
use rtrb::{Consumer, Producer};
use vstd::prelude::*;

verus! {

/// How much audio the ring buffer can hold before it has to have been drained, in seconds.
pub const RING_SECONDS: u64 = 2;

/// Time marks are tiny and drained at least once a second; this is generous.
pub const MARK_QUEUE_LEN: usize = 512;

/// Roughly one mark per second.
pub const MARK_INTERVAL_SECONDS: u64 = 1;

/// Fallback scratch size when the device does not report a maximum buffer size.
pub const DEFAULT_MAX_FRAMES: u64 = 8192;

/// How long to wait for the backend to bring the stream up, in nanoseconds.
pub const BUILD_TIMEOUT: u128 = 5_000_000_000;

/// A device timestamp pinned to a sample index.
///
/// `frame_index` counts frames captured *before* this buffer, and `capture_nanos` is the
/// device's estimate of when that frame hit the converter.
#[derive(Clone, Copy, PartialEq, Eq, Structural, Debug)]
pub struct TimeMark {
    pub frame_index: u64,
    pub capture_nanos: u128,
}

/// The sizes of everything that a stream needs, fixed before it starts so that the callback
/// never has to grow anything.
#[derive(Clone, Copy, PartialEq, Eq, Structural, Debug)]
pub struct CapturePlan {
    /// Samples that the ring holds.
    pub ring_len: u64,
    /// Frames between marks.
    pub mark_every: u64,
    /// Samples that the scratch buffer holds.
    pub scratch_len: u64,
}

/// Plan an input stream. `fixed_buffer` is the device's buffer size in frames, where it
/// reports one.
pub fn build(negotiated: &Negotiated, fixed_buffer: Option<u32>) -> (r: Result<CapturePlan, String>)
    ensures
        r is Err <==> negotiated.channels == 0,
        r is Err ==> r->Err_0@ == "device reports zero input channels"@,
        r is Ok ==> ({
            let p = r->Ok_0;
            let per_channel = if negotiated.rate == 0 {
                1
            } else {
                negotiated.rate * RING_SECONDS
            };
            &&& p.ring_len == per_channel * negotiated.channels
            &&& p.mark_every == negotiated.rate * MARK_INTERVAL_SECONDS
            &&& p.scratch_len == negotiated.channels * (match fixed_buffer {
                Some(n) => n as int,
                None => DEFAULT_MAX_FRAMES as int,
            })
        }),
{
    let channels: u64 = negotiated.channels as u64;
    if channels == 0 {
        return Err(String::from_str("device reports zero input channels"));
    }
    let seconds: u64 = negotiated.rate as u64 * RING_SECONDS;
    let per_channel: u64 = if seconds < 1 { 1 } else { seconds };
    let max_frames: u64 = match fixed_buffer {
        Some(n) => n as u64,
        None => DEFAULT_MAX_FRAMES,
    };
    proof {
        assert(per_channel * channels <= 0x2_0000_0000 * 0x1_0000) by (nonlinear_arith)
            requires
                0 <= per_channel <= 0x2_0000_0000,
                0 <= channels <= 0x1_0000,
        ;
        assert(channels * max_frames == max_frames * channels) by (nonlinear_arith);
        assert(max_frames * channels <= 0x1_0000_0000 * 0x1_0000) by (nonlinear_arith)
            requires
                0 <= max_frames <= 0x1_0000_0000,
                0 <= channels <= 0x1_0000,
        ;
    }
    Ok(
        CapturePlan {
            ring_len: per_channel * channels,
            mark_every: negotiated.rate as u64 * MARK_INTERVAL_SECONDS,
            scratch_len: max_frames * channels,
        },
    )
}

/// The bits of some samples.
pub open spec fn bits_of(samples: Seq<F32>) -> Seq<u32> {
    Seq::new(samples.len(), |i: int| samples[i].bits)
}

/// Everything the callback owns. Built once, mutated in place, never reallocated.
pub struct CallbackCtx {
    pub channels: usize,
    pub mark_every: u64,
    /// Where the audio goes.
    pub producer: Producer<u32>,
    /// Where the marks go, each a frame index and a capture time.
    pub marks: Producer<(u64, u128)>,
    pub meters: Meters,
    pub frames_seen: u64,
    pub next_mark_at: u64,
    /// Holds a buffer on its way into the ring. Room for it is reserved when it is made.
    pub scratch: Vec<u32>,
}

/// The other ends of a callback's rings.
pub struct Rings {
    pub audio: Consumer<u32>,
    pub marks: Consumer<(u64, u128)>,
}

impl CallbackCtx {
    pub open spec fn wf(&self) -> bool {
        self.meters.wf()
    }

    /// A callback at its first frame, with rings of the given sizes, and their other ends.
    pub fn new(
        channels: usize,
        mark_every: u64,
        rate: u32,
        ring_len: usize,
        mark_len: usize,
        scratch_len: usize,
    ) -> (r: (CallbackCtx, Rings))
        requires
            ring_len * 4 <= isize::MAX,
            mark_len * 32 <= isize::MAX,
            scratch_len * 4 <= isize::MAX,
        ensures
            r.0.wf(),
            r.0.channels == channels,
            r.0.mark_every == mark_every,
            r.0.frames_seen == 0,
            r.0.next_mark_at == 0,
            r.0.meters.sample_rate == if rate == 0 {
                1
            } else {
                rate
            },
            r.0.meters.peak@.len() == channels,
            forall|ch: int|
                0 <= ch < channels ==> #[trigger] r.0.meters.level(ch) == (
                    crate::audio::meters::Level {
                    peak: F32 { bits: 0 },
                    rms: F32 { bits: 0 },
                    clipped: false,
                }),
            r.0.meters.overruns == 0,
            ring::samples_sent(r.0.producer).len() == 0,
            ring::sample_room(r.0.producer) == ring_len,
            ring::marks_sent(r.0.marks).len() == 0,
            ring::mark_room(r.0.marks) == mark_len,
            ring::samples_received(r.1.audio).len() == 0,
            ring::marks_received(r.1.marks).len() == 0,
            ring::marks_run_dry(r.1.marks) == 0,
    {
        let (producer, audio) = sample_ring(ring_len);
        let (marks, marks_out) = mark_ring(mark_len);
        (
            CallbackCtx {
                channels,
                mark_every,
                producer,
                marks,
                meters: Meters::new(channels, rate),
                frames_seen: 0,
                next_mark_at: 0,
                scratch: Vec::with_capacity(scratch_len),
            },
            Rings { audio, marks: marks_out },
        )
    }

    /// Whole frames in a buffer of `samples`.
    pub open spec fn frames_in(&self, samples: int) -> int {
        if self.channels == 0 {
            0
        } else {
            samples / (self.channels as int)
        }
    }

    /// A mark for a buffer that starts at the current frame, where one is due.
    pub open spec fn mark_due(&self, capture_nanos: u128) -> Option<(u64, u128)> {
        if self.frames_seen >= self.next_mark_at {
            Some((self.frames_seen, capture_nanos))
        } else {
            None
        }
    }

    /// What a buffer without a whole frame leaves as it was.
    pub open spec fn untouched(&self, before: &CallbackCtx) -> bool {
        &&& self.channels == before.channels
        &&& self.mark_every == before.mark_every
        &&& self.producer == before.producer
        &&& self.marks == before.marks
        &&& self.meters == before.meters
        &&& self.frames_seen == before.frames_seen
        &&& self.next_mark_at == before.next_mark_at
    }

    /// Takes in a buffer of interleaved samples whose first frame was captured at
    /// `capture_nanos`. Answers whether its audio went into the ring; a buffer without a whole
    /// frame is passed over.
    ///
    /// The timestamp describes the first frame of the buffer, which is exactly the frame that
    /// has not been counted yet. The very first callback therefore marks frame zero and becomes
    /// the recording's anchor. Dropping a mark costs a little precision in the drift fit, never
    /// audio; audio that does not fit is counted as an overrun rather than waited for.
    pub fn on_data(&mut self, data: &Vec<F32>, capture_nanos: u128, b: Ballistics) -> (fitted: bool)
        requires
            old(self).wf(),
            old(self).frames_seen + old(self).mark_every <= u64::MAX,
            old(self).frames_seen + data@.len() <= u64::MAX,
        ensures
            final(self).wf(),
            final(self).channels == old(self).channels,
            final(self).mark_every == old(self).mark_every,
            ring::sample_room(final(self).producer) == ring::sample_room(old(self).producer),
            ring::mark_room(final(self).marks) == ring::mark_room(old(self).marks),
            final(self).frames_seen == old(self).frames_seen + old(self).frames_in(
                data@.len() as int,
            ),
            old(self).frames_in(data@.len() as int) == 0 ==> fitted && final(self).untouched(
                old(self),
            ),
            old(self).frames_in(data@.len() as int) > 0 ==> {
                &&& ring::samples_sent(final(self).producer) == if fitted {
                    ring::samples_sent(old(self).producer) + bits_of(data@)
                } else {
                    ring::samples_sent(old(self).producer)
                }
                &&& ring::samples_sent(old(self).producer).len() + data@.len()
                    <= ring::sample_room(old(self).producer) ==> fitted
                &&& data@.len() > ring::sample_room(old(self).producer) ==> !fitted
                &&& (match old(self).mark_due(capture_nanos) {
                    Some(mark) => {
                        &&& final(self).next_mark_at == old(self).frames_seen + old(self).mark_every
                        &&& (ring::marks_sent(final(self).marks) == ring::marks_sent(
                            old(self).marks,
                        ).push(mark) || (ring::marks_sent(final(self).marks)
                            == ring::marks_sent(old(self).marks) && ring::marks_sent(
                            old(self).marks,
                        ).len() >= ring::mark_room(old(self).marks)))
                    },
                    None => final(self).next_mark_at == old(self).next_mark_at
                        && final(self).marks == old(self).marks,
                })
                &&& final(self).meters.overruns == if fitted {
                    old(self).meters.overruns as int
                } else {
                    (old(self).meters.overruns + 1) % 0x1_0000_0000_0000_0000
                }
                &&& final(self).meters.sample_rate == old(self).meters.sample_rate
                &&& final(self).meters.peak@.len() == old(self).meters.peak@.len()
                &&& forall|ch: int|
                    0 <= ch < old(self).meters.peak@.len() ==> #[trigger] final(self).meters.level(
                        ch,
                    ) == if ch < old(self).channels {
                        crate::audio::meters::level_after(
                            old(self).meters.level(ch),
                            crate::audio::meters::channel_of(
                                data@,
                                old(self).channels as nat,
                                ch as nat,
                            ),
                            b,
                        )
                    } else {
                        old(self).meters.level(ch)
                    }
            },
    {
        if self.channels == 0 {
            return true;
        }
        let frames: usize = data.len() / self.channels;
        if frames == 0 {
            return true;
        }
        proof {
            vstd::arithmetic::div_mod::lemma_div_nonincreasing(
                data@.len() as int,
                self.channels as int,
            );
        }
        self.fill_scratch(data);
        self.meters.ingest(data, self.channels, b);
        let ghost metered = self.meters;
        if self.frames_seen >= self.next_mark_at {
            let _sent: bool = send_mark(&mut self.marks, (self.frames_seen, capture_nanos));
            self.next_mark_at = self.frames_seen + self.mark_every;
        }
        let fitted: bool = send_samples(&mut self.producer, &self.scratch);
        if !fitted {
            self.meters.note_overrun();
        }
        assert forall|ch: int| 0 <= ch < metered.peak@.len() implies #[trigger] self.meters.level(
            ch,
        ) == metered.level(ch) by {
        }
        self.frames_seen = self.frames_seen + frames as u64;
        fitted
    }

    fn fill_scratch(&mut self, data: &Vec<F32>)
        ensures
            final(self).untouched(old(self)),
            final(self).scratch@ == bits_of(data@),
    {
        self.scratch.clear();
        let mut i: usize = 0;
        while i < data.len()
            invariant
                i <= data@.len(),
                self.untouched(old(self)),
                self.scratch@ == bits_of(data@.take(i as int)),
            decreases data@.len() - i,
        {
            self.scratch.push(data[i].bits);
            i = i + 1;
            assert(self.scratch@ =~= bits_of(data@.take(i as int)));
        }
        assert(data@.take(i as int) =~= data@);
    }
}

/// A fresh callback marks the very first buffer, at frame zero.
pub proof fn law_the_first_buffer_is_the_anchor(c: CallbackCtx, nanos: u128)
    requires
        c.frames_seen == 0,
        c.next_mark_at == 0,
    ensures
        c.mark_due(nanos) == Some((0u64, nanos)),
{
}

/// After a mark, no buffer is marked until a whole interval of frames has gone by.
pub proof fn law_marks_are_an_interval_apart(
    c: CallbackCtx,
    nanos: u128,
    marked: u64,
    later: (u64, u128),
)
    requires
        c.next_mark_at == marked + c.mark_every,
        c.mark_due(nanos) == Some(later),
    ensures
        later.0 >= marked + c.mark_every,
{
}

/// Once a whole interval has gone by after a mark, the next buffer is marked, with its own first
/// frame and the time at which that was captured.
pub proof fn law_a_buffer_is_marked_once_the_interval_is_over(
    c: CallbackCtx,
    nanos: u128,
    marked: u64,
)
    requires
        c.next_mark_at == marked + c.mark_every,
        c.frames_seen >= marked + c.mark_every,
    ensures
        c.mark_due(nanos) == Some((c.frames_seen, nanos)),
{
}

} // verus!
