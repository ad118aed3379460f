//! The time reference a take is measured against, whichever kind it is.
//!
//! Everything downstream of the capture path, the drift log, the drift fit, the safety
//! gate and the file's metadata, only ever needs one thing from the clock: what UTC held
//! at an [`Instant`]. That is the whole of the interface, and the SNTP model and a LAN
//! timecode timeline both fit behind it.

use crate::clock::{ClockSnapshot, SyncState};
use crate::finalize::MIN_CLOCK_SAMPLES;
use crate::float::F64;
use crate::text;
use crate::text::{push_decimal, push_fixed};
use crate::time::Instant;
use vstd::prelude::*;

verus! {

/// The timecode format a reference stamps in, when it stamps timecode at all.
#[derive(Clone, Copy, PartialEq, Eq, Structural, Debug)]
pub struct TimecodeFormat {
    pub numerator: u32,
    pub denominator: u32,
    pub drop_frame: bool,
}

impl TimecodeFormat {
    /// The frame rate as it reads on a report, and whether it numbers drop-frame.
    pub open spec fn text(self) -> Seq<char> {
        let rate = if self.denominator == 1 {
            text::decimal(self.numerator as nat)
        } else {
            text::fixed(
                F64::of_int(self.numerator as int).div_spec(
                    F64::of_int(self.denominator as int),
                ),
                3,
            )
        };
        rate + if self.drop_frame {
            " DF"@
        } else {
            " NDF"@
        }
    }

    pub proof fn lemma_text_is_ascii(self)
        ensures
            text::ascii(self.text()),
    {
        text::lemma_decimal_is_ascii(self.numerator as nat);
        text::lemma_fixed_is_ascii(
            F64::of_int(self.numerator as int).div_spec(F64::of_int(self.denominator as int)),
            3,
        );
        reveal_strlit(" DF");
        reveal_strlit(" NDF");
    }

    pub fn to_text(&self) -> (r: String)
        ensures
            r@ == self.text(),
    {
        let mut s: String = String::new();
        if self.denominator == 1 {
            push_decimal(&mut s, self.numerator as u128);
        } else {
            let fps: F64 = F64::from_u64(self.numerator as u64).div(
                F64::from_u64(self.denominator as u64),
            );
            push_fixed(&mut s, fps, 3);
        }
        s.append(
            if self.drop_frame {
                " DF"
            } else {
                " NDF"
            },
        );
        assert(s@ =~= self.text());
        s
    }
}

/// What a reference says about itself: enough for the safety gate and the file.
#[derive(Clone, Debug)]
pub struct RefStatus {
    /// Which kind of reference this is, for a status line with no room for the whole of
    /// `source`.
    pub kind: String,
    /// Where the timestamps came from, as it should read in the file.
    pub source: String,
    /// Whether the reference is good enough to have timestamped this take.
    pub synced: bool,
    /// One word for the window and the file: `synced`, `coarse`, `holdover`.
    pub label: String,
    /// Independent exchanges behind `synced`, when the reference counts such a thing.
    /// `None` means it does not, a leader being its own reference, and the drift gate then skips
    /// that criterion rather than inventing a number to satisfy it.
    pub samples: Option<u64>,
    /// Exchanges the reference threw away, when it counts such a thing.
    pub discarded: Option<u64>,
    /// Best estimate of the timestamp error, in seconds.
    pub dispersion_s: Option<F64>,
    /// Frequency error of the local clock against the reference, in ppm, when it was
    /// measured well enough to believe.
    pub slope_ppm: Option<F64>,
}

/// A [`RefStatus`] with its texts as sequences of characters.
pub ghost struct StatusView {
    pub kind: Seq<char>,
    pub source: Seq<char>,
    pub synced: bool,
    pub label: Seq<char>,
    pub samples: Option<u64>,
    pub discarded: Option<u64>,
    pub dispersion_s: Option<F64>,
    pub slope_ppm: Option<F64>,
}

impl View for RefStatus {
    type V = StatusView;

    open spec fn view(&self) -> StatusView {
        StatusView {
            kind: self.kind@,
            source: self.source@,
            synced: self.synced,
            label: self.label@,
            samples: self.samples,
            discarded: self.discarded,
            dispersion_s: self.dispersion_s,
            slope_ppm: self.slope_ppm,
        }
    }
}

impl StatusView {
    /// Whether enough exchanges stand behind the reference, where it counts them.
    pub open spec fn enough_samples(self) -> bool {
        match self.samples {
            None => true,
            Some(n) => n >= MIN_CLOCK_SAMPLES,
        }
    }

    pub open spec fn is_ready(self) -> bool {
        self.synced && self.enough_samples()
    }
}

impl RefStatus {
    /// A copy, field for field.
    pub fn copied(&self) -> (r: RefStatus)
        ensures
            r@ == self@,
    {
        RefStatus {
            kind: self.kind.clone(),
            source: self.source.clone(),
            synced: self.synced,
            label: self.label.clone(),
            samples: self.samples,
            discarded: self.discarded,
            dispersion_s: self.dispersion_s,
            slope_ppm: self.slope_ppm,
        }
    }

    /// Whether a take started now could be corrected. The record button and the drift gate both
    /// ask this, so they can never disagree about what "ready" means.
    pub fn ready(&self) -> (r: bool)
        ensures
            r == self@.is_ready(),
    {
        self.synced && match self.samples {
            None => true,
            Some(n) => n >= MIN_CLOCK_SAMPLES,
        }
    }

    /// How many more exchanges are needed, or `None` once there is nothing to wait for.
    pub fn waiting_for(&self) -> (r: Option<String>)
        ensures
            r is None <==> self@.is_ready(),
            r is Some && !self@.enough_samples() ==> r->0@ == "waiting for "@ + self.kind@ + " "@
                + text::decimal(self.samples->0 as nat) + "/"@ + text::decimal(
                MIN_CLOCK_SAMPLES as nat,
            ),
            r is Some && self@.enough_samples() ==> r->0@ == self.kind@ + " is "@ + self.label@,
    {
        if self.ready() {
            return None;
        }
        if let Some(n) = self.samples {
            if n < MIN_CLOCK_SAMPLES {
                let mut s: String = String::from_str("waiting for ");
                s.append(self.kind.as_str());
                s.append(" ");
                push_decimal(&mut s, n as u128);
                s.append("/");
                push_decimal(&mut s, MIN_CLOCK_SAMPLES as u128);
                return Some(s);
            }
        }
        let mut s: String = self.kind.clone();
        s.append(" is ");
        s.append(self.label.as_str());
        Some(s)
    }
}

/// Resolves a monotonic instant to UTC, whatever is doing the resolving.
///
/// A reference is a *frozen copy* of whatever its source last published. That is what
/// lets every mark in a writer pass be resolved against one consistent state.
pub trait Reference {
    /// What [`Reference::utc_nanos`] answers at an instant.
    spec fn resolves_at(&self, at: Instant) -> Option<i128>;

    /// What [`Reference::status`] says.
    spec fn status_view(&self) -> StatusView;

    /// The timecode format, for a reference that stamps timecode.
    spec fn format_view(&self) -> Option<TimecodeFormat>;

    /// The session the reference belongs to, for a reference that knows sessions.
    spec fn session_view(&self) -> Option<Seq<char>>;

    /// UTC in unix nanoseconds at `at`, or `None` while the reference cannot say.
    fn utc_nanos(&self, at: Instant) -> (r: Option<i128>)
        ensures
            r == self.resolves_at(at),
    ;

    fn status(&self) -> (r: RefStatus)
        ensures
            r@ == self.status_view(),
    ;

    /// The timecode format this reference stamps in. `None` for a clock that only knows
    /// UTC: there is no frame rate to report.
    fn timecode_format(&self) -> (r: Option<TimecodeFormat>)
        ensures
            r == self.format_view(),
    ;

    /// The recording session, shared by every machine of a rig. `None` for a clock that
    /// nobody else is recording against.
    fn session_id(&self) -> (r: Option<String>)
        ensures
            match r {
                None => self.session_view() is None,
                Some(s) => self.session_view() == Some(s@),
            },
    ;
}

/// The SNTP-fitted clock, behind the common interface.
pub struct NtpReference {
    pub server: String,
    pub snapshot: ClockSnapshot,
}

impl NtpReference {
    /// A reference pinned to one snapshot until it is refreshed.
    pub fn fixed(server: String, snapshot: ClockSnapshot) -> (r: NtpReference)
        ensures
            r.server@ == server@,
            r.snapshot == snapshot,
    {
        NtpReference { server, snapshot }
    }

    pub fn snapshot(&self) -> (r: ClockSnapshot)
        ensures
            r == self.snapshot,
    {
        self.snapshot
    }

    /// Picks up what the model has published since the last call; `None` where it has
    /// published nothing that can be read.
    pub fn refresh(&mut self, published: Option<ClockSnapshot>)
        ensures
            final(self).server@ == old(self).server@,
            final(self).snapshot == (match published {
                Some(s) => s,
                None => old(self).snapshot,
            }),
    {
        if let Some(s) = published {
            self.snapshot = s;
        }
    }

    /// What a snapshot of a server's clock says about itself.
    pub open spec fn status_view_of(server: Seq<char>, snap: ClockSnapshot) -> StatusView {
        StatusView {
            kind: "NTP"@,
            source: server,
            synced: snap.state == SyncState::Synced,
            label: snap.state.name(),
            samples: Some(snap.accepted),
            discarded: Some(snap.rejected),
            dispersion_s: snap.dispersion_of(),
            slope_ppm: match snap.fit {
                Some(f) => if f.slope_trusted {
                    Some(f.slope_ppm())
                } else {
                    None
                },
                None => None,
            },
        }
    }

    /// The status a snapshot implies, without needing a whole reference.
    pub fn status_of(server: &str, snap: &ClockSnapshot) -> (r: RefStatus)
        ensures
            r@ == Self::status_view_of(server@, *snap),
    {
        RefStatus {
            kind: String::from_str("NTP"),
            source: String::from_str(server),
            synced: snap.state == SyncState::Synced,
            label: String::from_str(snap.state.label()),
            samples: Some(snap.accepted),
            discarded: Some(snap.rejected),
            dispersion_s: snap.dispersion(),
            slope_ppm: match snap.fit {
                Some(f) => if f.slope_trusted {
                    Some(f.ppm())
                } else {
                    None
                },
                None => None,
            },
        }
    }
}

impl Reference for NtpReference {
    open spec fn resolves_at(&self, at: Instant) -> Option<i128> {
        self.snapshot.resolves(at)
    }

    open spec fn status_view(&self) -> StatusView {
        Self::status_view_of(self.server@, self.snapshot)
    }

    open spec fn format_view(&self) -> Option<TimecodeFormat> {
        None
    }

    open spec fn session_view(&self) -> Option<Seq<char>> {
        None
    }

    fn utc_nanos(&self, at: Instant) -> (r: Option<i128>) {
        self.snapshot.utc_nanos_at(at)
    }

    fn status(&self) -> (r: RefStatus) {
        Self::status_of(self.server.as_str(), &self.snapshot)
    }

    fn timecode_format(&self) -> (r: Option<TimecodeFormat>) {
        None
    }

    fn session_id(&self) -> (r: Option<String>) {
        None
    }
}

/// A reference that is frozen answers an instant the same way until it is refreshed,
/// whatever the model it was taken from has learned since.
pub proof fn law_frozen_until_refreshed(r: NtpReference, later: ClockSnapshot, at: Instant)
    ensures
        r.resolves_at(at) == r.snapshot.resolves(at),
        (NtpReference { server: r.server, snapshot: later }).resolves_at(at) == later.resolves(at),
{
}

/// An SNTP reference that is not synced is never ready, and one that is ready has the
/// exchanges behind it.
pub proof fn law_ready_means_synced_with_samples(server: Seq<char>, snap: ClockSnapshot)
    ensures
        NtpReference::status_view_of(server, snap).is_ready() <==> (snap.state == SyncState::Synced
            && snap.accepted >= MIN_CLOCK_SAMPLES),
{
}

} // verus!
