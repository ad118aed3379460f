//! What the window says.

use crate::audio::session::Progress;
use crate::clock::ClockSnapshot;
use crate::float::F64;
use crate::settings::TimeSource;
use crate::text;
use crate::text::{push_decimal, push_fixed, push_fixed_signed};
use crate::time;
use crate::time::{Instant, KILO};
use crate::ui::take;
use crate::ui::take::hms;
use crate::ui::{preferred_address, App, LeaderFound, Monitor, Stage};
use crate::ui;
use vstd::prelude::*;

verus! {

/// A span of seconds in milliseconds.
pub open spec fn millis(seconds: F64) -> F64 {
    seconds.mul_spec(F64 { bits: KILO })
}

/// The clock's details, where there is a clock: the error it admits, the frequency it
/// measured where it trusts it, and how far the system clock is out.
pub open spec fn clock_detail(s: ClockSnapshot, mono: Instant, sys: i128) -> Seq<char> {
    let disp = match s.dispersion_of() {
        Some(d) => "±"@ + text::fixed(millis(d), 1) + " ms"@,
        None => "±?"@,
    };
    let ppm = match s.fit {
        Some(f) => if f.slope_trusted {
            " · "@ + text::fixed_signed(f.slope_ppm(), 1) + " ppm"@
        } else {
            ""@
        },
        None => ""@,
    };
    let off = match s.resolves(mono) {
        Some(ours) => " · OS clock "@ + text::fixed_signed(
            millis(
                F64::of_int(time::held(ours - sys)).div_spec(F64 { bits: time::GIGA }),
            ),
            1,
        ) + " ms"@,
        None => ""@,
    };
    disp + ppm + off + " · "@ + text::decimal(s.accepted as nat) + " polls"@
}

/// The line under the clock's state, at the instant `mono` when the system clock reads `sys`.
pub fn ntp_detail(snapshot: Option<ClockSnapshot>, mono: Instant, sys: i128) -> (r: String)
    ensures
        r@ == (match snapshot {
            Some(s) => clock_detail(s, mono, sys),
            None => "clock unavailable"@,
        }),
{
    match snapshot {
        None => String::from_str("clock unavailable"),
        Some(s) => {
            proof {
                reveal_strlit("");
            }
            let mut out: String = match s.dispersion() {
                Some(d) => {
                    let mut t: String = String::from_str("±");
                    push_fixed(&mut t, d.mul(F64 { bits: KILO }), 1);
                    t.append(" ms");
                    t
                },
                None => String::from_str("±?"),
            };
            if let Some(f) = s.fit() {
                if f.slope_trusted {
                    out.append(" · ");
                    push_fixed_signed(&mut out, f.ppm(), 1);
                    out.append(" ppm");
                }
            }
            if let Some(e) = s.system_clock_error(mono, sys) {
                out.append(" · OS clock ");
                push_fixed_signed(&mut out, e.mul(F64 { bits: KILO }), 1);
                out.append(" ms");
            }
            out.append(" · ");
            push_decimal(&mut out, s.accepted as u128);
            out.append(" polls");
            assert(out@ =~= clock_detail(s, mono, sys));
            out
        },
    }
}

/// The record button: what it says and whether it can be pressed.
#[derive(Clone, Copy, PartialEq, Eq, Structural, Debug)]
pub enum Button {
    Finalising,
    /// A follower that is recording, because its leader rolls.
    Recording,
    WaitingForLeader,
    NoLeader,
    Stop,
    NoInput,
    Record,
    Syncing,
}

impl Button {
    pub open spec fn text(self) -> Seq<char> {
        match self {
            Button::Finalising => "Finalising…"@,
            Button::Recording => "Recording"@,
            Button::WaitingForLeader => "Waiting for leader"@,
            Button::NoLeader => "No leader"@,
            Button::Stop => "Stop"@,
            Button::NoInput => "No input"@,
            Button::Record => "Record"@,
            Button::Syncing => "Syncing…"@,
        }
    }

    pub fn label(self) -> (r: &'static str)
        ensures
            r@ == self.text(),
    {
        match self {
            Button::Finalising => "Finalising…",
            Button::Recording => "Recording",
            Button::WaitingForLeader => "Waiting for leader",
            Button::NoLeader => "No leader",
            Button::Stop => "Stop",
            Button::NoInput => "No input",
            Button::Record => "Record",
            Button::Syncing => "Syncing…",
        }
    }

    pub open spec fn can_press(self) -> bool {
        self == Button::Stop || self == Button::Record || self == Button::Syncing
    }

    pub fn enabled(self) -> (r: bool)
        ensures
            r == self.can_press(),
    {
        match self {
            Button::Stop => true,
            Button::Record => true,
            Button::Syncing => true,
            _ => false,
        }
    }
}

/// The colour of the record button: it has to read as *red* in any theme, and armed has to be
/// told from not yet across the room.
#[derive(Clone, Copy, PartialEq, Eq, Structural, Debug)]
pub enum Tint {
    Disabled,
    Armed,
    Muted,
}

/// The line above the transport.
#[derive(Clone, Debug)]
pub enum StatusLine {
    Error(String),
    Hint(String),
    Result(String),
    Blank,
}

/// The transport row.
#[derive(Clone, Debug)]
pub struct Transport {
    pub elapsed: String,
    pub button: Button,
    pub tint: Tint,
    pub line: StatusLine,
}

/// A leader that can be chosen.
#[derive(Clone, Debug)]
pub struct FoundRow {
    pub text: String,
    pub address: String,
}

impl App {
    pub fn title(&self) -> (r: &'static str)
        ensures
            r@ == (match self.stage {
                Stage::Recording => "syncrec — recording"@,
                Stage::Finalizing => "syncrec — finalising"@,
                Stage::Idle => "syncrec"@,
            }),
    {
        match self.stage {
            Stage::Recording => "syncrec — recording",
            Stage::Finalizing => "syncrec — finalising",
            Stage::Idle => "syncrec",
        }
    }

    /// The clock's state, for the corner of the window.
    pub fn ntp_label(&self) -> (r: String)
        ensures
            r@ == "NTP "@ + self.status.label@,
    {
        let mut s: String = String::from_str("NTP ");
        s.append(self.status.label.as_str());
        s
    }

    /// The timecode, for the corner of the window.
    pub fn timecode_text(&self) -> (r: String)
        ensures
            r@ == (match self.timecode {
                Some(tc) => tc@,
                None => "--:--:--:--"@,
            }),
    {
        match &self.timecode {
            Some(tc) => tc.clone(),
            None => String::from_str("--:--:--:--"),
        }
    }

    /// Where the timecode comes from and how far it may be out, where that is known.
    pub fn link_detail(&self) -> (r: String)
        ensures
            r@ == (match self.status.dispersion_s {
                Some(d) => self.status.source@ + " · ±"@ + text::fixed(millis(d), 2) + " ms"@,
                None => self.status.source@,
            }),
    {
        let mut s: String = self.status.source.clone();
        if let Some(d) = self.status.dispersion_s {
            s.append(" · ±");
            push_fixed(&mut s, d.mul(F64 { bits: KILO }), 2);
            s.append(" ms");
        }
        s
    }

    /// The format of the monitoring stream, and what becomes of its rate.
    pub open spec fn format_text(m: Monitor) -> Seq<char> {
        text::decimal(m.channels as nat) + " ch · "@ + text::decimal(m.rate as nat)
            + if m.native_target_rate {
            " Hz"@
        } else {
            " Hz → 48000 on save"@
        }
    }

    /// The line under the device picker.
    pub fn device_format(&self) -> (r: String)
        ensures
            r@ == (match self.monitor {
                Some(m) => App::format_text(m),
                None => "no input"@,
            }),
    {
        match self.monitor {
            None => String::from_str("no input"),
            Some(m) => {
                let mut s: String = String::new();
                push_decimal(&mut s, m.channels as u128);
                s.append(" ch · ");
                push_decimal(&mut s, m.rate as u128);
                s.append(
                    if m.native_target_rate {
                        " Hz"
                    } else {
                        " Hz → 48000 on save"
                    },
                );
                assert(s@ =~= App::format_text(m));
                s
            },
        }
    }

    /// How many rows the meter is sized for.
    pub fn meter_channels(&self) -> (r: usize)
        ensures
            r == (match self.monitor {
                Some(m) => m.channels as int,
                None => 1,
            }),
    {
        match self.monitor {
            Some(m) => m.channels as usize,
            None => 1,
        }
    }

    /// Whether there is a clip latch to clear.
    pub fn any_clip(&self) -> (r: bool)
        ensures
            r == self.clips@.contains(true),
    {
        let mut i: usize = 0;
        while i < self.clips.len()
            invariant
                i <= self.clips@.len(),
                forall|k: int| 0 <= k < i ==> !self.clips@[k],
            decreases self.clips@.len() - i,
        {
            if self.clips[i] {
                assert(self.clips@[i as int] == true);
                return true;
            }
            i = i + 1;
        }
        false
    }

    /// Which take comes next.
    pub fn preview_text(&self) -> (r: String)
        ensures
            r@ == "next: "@ + self.next_preview@,
    {
        let mut s: String = String::from_str("next: ");
        s.append(self.next_preview.as_str());
        s
    }

    /// What the record button is.
    ///
    /// Recording is never blocked on the clock: missing the moment is worse than an uncorrected
    /// take. The button says what will come of it instead. A follower is the exception, and not
    /// because of the clock: its transport belongs to the leader.
    pub open spec fn button_of(&self) -> Button {
        if self.stage == Stage::Finalizing {
            Button::Finalising
        } else if self.follows() {
            if self.stage == Stage::Recording {
                Button::Recording
            } else if self.rolling is Some {
                Button::WaitingForLeader
            } else {
                Button::NoLeader
            }
        } else if self.stage == Stage::Recording {
            Button::Stop
        } else if self.monitor is None {
            Button::NoInput
        } else if self.status@.is_ready() {
            Button::Record
        } else {
            Button::Syncing
        }
    }

    pub fn button(&self) -> (r: Button)
        ensures
            r == self.button_of(),
    {
        if self.stage == Stage::Finalizing {
            return Button::Finalising;
        }
        if self.slaved() {
            return if self.stage == Stage::Recording {
                Button::Recording
            } else if self.rolling.is_some() {
                Button::WaitingForLeader
            } else {
                Button::NoLeader
            };
        }
        if self.stage == Stage::Recording {
            Button::Stop
        } else if self.monitor.is_none() {
            Button::NoInput
        } else if self.clock_ready() {
            Button::Record
        } else {
            Button::Syncing
        }
    }

    pub open spec fn tint_of(&self) -> Tint {
        if !self.button_of().can_press() {
            Tint::Disabled
        } else if self.status@.is_ready() || self.stage == Stage::Recording {
            Tint::Armed
        } else {
            Tint::Muted
        }
    }

    /// Whether a line is what the window has to say: an error before all else, then what the
    /// clock is waited for while nothing is being recorded, then how the last take went.
    pub open spec fn says(&self, line: StatusLine) -> bool {
        let waiting = self.stage == Stage::Idle && !self.status@.is_ready();
        match line {
            StatusLine::Error(e) => self.error is Some && e@ == self.error->0@,
            StatusLine::Hint(h) => self.error is None && waiting && h@
                == if self.status@.enough_samples() {
                self.status.kind@ + " is "@ + self.status.label@
            } else {
                "waiting for "@ + self.status.kind@ + " "@ + text::decimal(
                    self.status.samples->0 as nat,
                ) + "/"@ + text::decimal(crate::finalize::MIN_CLOCK_SAMPLES as nat)
            },
            StatusLine::Result(m) => self.error is None && !waiting && self.last_result is Some
                && m@ == self.last_result->0@,
            StatusLine::Blank => self.error is None && !waiting && self.last_result is None,
        }
    }

    fn status_line(&self) -> (r: StatusLine)
        ensures
            self.says(r),
    {
        if let Some(e) = &self.error {
            return StatusLine::Error(e.clone());
        }
        if self.stage == Stage::Idle {
            if let Some(hint) = self.status.waiting_for() {
                return StatusLine::Hint(hint);
            }
        }
        match &self.last_result {
            Some(msg) => StatusLine::Result(msg.clone()),
            None => StatusLine::Blank,
        }
    }

    /// The transport row. `progress` is that of the take at the device's rate.
    pub fn transport(&self, progress: Progress, rate: u32) -> (r: Transport)
        ensures
            r.button == self.button_of(),
            r.tint == self.tint_of(),
            self.says(r.line),
            r.elapsed@ == if self.stage == Stage::Recording {
                take::hms_text(
                    if rate == 0 {
                        0
                    } else {
                        time::span_of_seconds(
                            F64::of_int(progress.frames as int).div_spec(
                                F64::of_int(rate as int),
                            ),
                        )
                    },
                )
            } else {
                "00:00:00"@
            },
    {
        let elapsed: String = if self.stage == Stage::Recording {
            hms(progress.elapsed(rate))
        } else {
            String::from_str("00:00:00")
        };
        let button: Button = self.button();
        let tint: Tint = if !button.enabled() {
            Tint::Disabled
        } else if self.clock_ready() || self.stage == Stage::Recording {
            Tint::Armed
        } else {
            Tint::Muted
        };
        Transport { elapsed, button, tint, line: self.status_line() }
    }

    /// What a leader listens under.
    pub fn listening_text(&self) -> (r: String)
        ensures
            r@ == (match self.link {
                Some(l) => match l.fingerprint {
                    Some(fp) => "SHA-256 "@ + fp@,
                    None => "not listening"@,
                },
                None => "not listening"@,
            }),
    {
        if let Some(l) = &self.link {
            if let Some(fp) = &l.fingerprint {
                let mut s: String = String::from_str("SHA-256 ");
                s.append(fp.as_str());
                return s;
            }
        }
        String::from_str("not listening")
    }

    /// The first of the addresses, two spaces between them.
    pub open spec fn address_list(&self, n: int) -> Seq<char>
        decreases n,
    {
        if n <= 0 {
            Seq::empty()
        } else if n == 1 {
            self.endpoints@[0].text@
        } else {
            self.address_list(n - 1) + "  "@ + self.endpoints@[n - 1].text@
        }
    }

    /// Where a leader can be reached. It listens on every interface at once, which is nothing
    /// an operator could type into another machine, so the interfaces are shown instead.
    pub fn reachable_text(&self) -> (r: String)
        ensures
            r@ == if self.endpoints@.len() == 0 {
                "no reachable address yet"@
            } else {
                "followers can use  "@ + self.address_list(self.endpoints@.len() as int)
            },
    {
        if self.endpoints.len() == 0 {
            return String::from_str("no reachable address yet");
        }
        let mut list: String = self.endpoints[0].text.clone();
        let mut i: usize = 1;
        while i < self.endpoints.len()
            invariant
                1 <= i <= self.endpoints@.len(),
                list@ == self.address_list(i as int),
            decreases self.endpoints@.len() - i,
        {
            list.append("  ");
            list.append(self.endpoints[i].text.as_str());
            i = i + 1;
        }
        let mut s: String = String::from_str("followers can use  ");
        s.append(list.as_str());
        s
    }

    /// Whom a follower is locked to.
    pub fn connected_text(&self) -> (r: String)
        ensures
            r@ == (match self.link {
                Some(l) => match l.address {
                    Some(addr) => "locked to "@ + addr@ + " · "@ + self.status.label@,
                    None => "no leader yet"@,
                },
                None => "no leader yet"@,
            }),
    {
        if let Some(l) = &self.link {
            if let Some(addr) = &l.address {
                let mut s: String = String::from_str("locked to ");
                s.append(addr.as_str());
                s.append(" · ");
                s.append(self.status.label.as_str());
                return s;
            }
        }
        String::from_str("no leader yet")
    }

    /// Whether a row offers a leader at an address.
    pub open spec fn is_row(row: FoundRow, leader: LeaderFound, i: int) -> bool {
        &&& row.address@ == leader.addresses@[i].text@
        &&& row.text@ == leader.name@ + " · "@ + leader.addresses@[i].text@
    }

    /// Whether the rows offer exactly the first `n` of the leaders that have an address, in
    /// order.
    pub open spec fn are_rows(&self, rows: Seq<FoundRow>, n: int) -> bool
        decreases n,
    {
        if n <= 0 {
            rows.len() == 0
        } else {
            match ui::preferred(self.discovered@[n - 1].addresses@) {
                None => self.are_rows(rows, n - 1),
                Some(i) => rows.len() > 0 && App::is_row(
                    rows.last(),
                    self.discovered@[n - 1],
                    i,
                ) && self.are_rows(rows.drop_last(), n - 1),
            }
        }
    }

    /// The leaders to choose from, where no address that resolves was typed. `None` says that
    /// none has been seen yet.
    pub fn found_rows(&self, typed: bool) -> (r: Option<Vec<FoundRow>>)
        ensures
            (match r {
                None => !typed && self.discovered@.len() == 0,
                Some(rows) => if typed {
                    rows@.len() == 0
                } else {
                    self.discovered@.len() > 0 && self.are_rows(
                        rows@,
                        self.discovered@.len() as int,
                    )
                },
            }),
    {
        let mut rows: Vec<FoundRow> = Vec::new();
        if typed {
            return Some(rows);
        }
        if self.discovered.len() == 0 {
            return None;
        }
        let mut i: usize = 0;
        while i < self.discovered.len()
            invariant
                i <= self.discovered@.len(),
                self.are_rows(rows@, i as int),
            decreases self.discovered@.len() - i,
        {
            let leader: &LeaderFound = &self.discovered[i];
            if let Some(k) = preferred_address(&leader.addresses) {
                let ghost before = rows@;
                let address: String = leader.addresses[k].text.clone();
                let mut line: String = leader.name.clone();
                line.append(" · ");
                line.append(address.as_str());
                rows.push(FoundRow { text: line, address });
                assert(rows@.drop_last() =~= before);
            }
            i = i + 1;
        }
        Some(rows)
    }

    /// Whether the drop-frame box can be ticked.
    pub fn offers_drop_frame(&self) -> (r: bool)
        ensures
            r == self.settings.fps.drops(),
    {
        self.settings.fps.supports_drop_frame()
    }

    /// Whether the panel about a blocked microphone is shown.
    pub fn shows_permission_panel(&self) -> (r: bool)
        ensures
            r == (self.permission == crate::permission::PermissionStatus::Denied),
    {
        self.permission.needs_settings_visit()
    }
}

/// The clock never blocks recording: whether the button can be pressed does not depend on the
/// state of the reference.
pub proof fn law_recording_is_never_blocked_on_the_clock(a: App, b: App)
    requires
        b == (App { status: b.status, ..a }),
    ensures
        a.button_of().can_press() == b.button_of().can_press(),
{
}

/// A follower's button is a lamp, never a control.
pub proof fn law_a_followers_button_is_a_lamp(app: App)
    requires
        app.follows(),
    ensures
        !app.button_of().can_press(),
        app.tint_of() == Tint::Disabled,
{
}

/// The button is armed exactly when a take that is started now could be corrected.
pub proof fn law_armed_means_correctable(app: App)
    requires
        app.stage == Stage::Idle,
        app.settings.source == TimeSource::Ntp,
        app.monitor is Some,
    ensures
        (app.tint_of() == Tint::Armed) == app.status@.is_ready(),
        (app.button_of() == Button::Record) == app.status@.is_ready(),
{
}

} // verus!
