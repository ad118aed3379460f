//! The front end: what the window shows and what its buttons decide.
//!
//! The input stream runs continuously from the moment a device is chosen, not from the moment
//! the operator hits record: nobody can set gain against a meter that only comes alive once
//! the take is already running.
//!
//! The window has two screens. The recording screen carries only what changes take to take.
//! Everything that belongs to the rig lives on the settings screen, where an operator watching
//! a meter cannot reach it by accident.
//!
//! A follower's record button is not a button. The leader's transport is the record state for
//! the whole rig, so this machine watches it and rolls when it rolls.
//!
//! [`App`] is what the window remembers. Each message or tick changes it and answers with the
//! [`Action`]s to perform outside, in order; what an action brings back is handed in through
//! the method that the action names.

pub mod meter;
pub mod take;
pub mod view;

use crate::audio::writer;
use crate::audio::writer::{take_paths, TakePaths};
use crate::audio::DeviceChoice;
use crate::clock::reference::{NtpReference, RefStatus, StatusView, TimecodeFormat};
use crate::clock::ClockSnapshot;
use crate::ethersync::{Endpoint, Fps, Role};
use crate::finalize::Outcome;
use crate::float::F32;
use crate::float::F64;
use crate::permission::PermissionStatus;
use crate::settings;
use crate::settings::{trim, Settings, TimeSource};
use crate::text;
use crate::text::{push_decimal, same_text};
use crate::time::Instant;
use crate::ui::take::{describe_outcome, file_name, format_trim};
use vstd::prelude::*;

verus! {

/// Meter refresh, in nanoseconds. Fast enough that a transient peak is never missed by the
/// eye.
pub const TICK: u128 = 16_000_000;

/// How often the leader's addresses are looked up while anyone is looking, in nanoseconds.
pub const ENDPOINTS_EVERY: i128 = 1_000_000_000;

/// Which screen is showing.
#[derive(Clone, Copy, PartialEq, Eq, Structural, Debug)]
pub enum Screen {
    Record,
    Settings,
}

/// What the recorder is doing right now.
#[derive(Clone, Copy, PartialEq, Eq, Structural, Debug)]
pub enum Stage {
    Idle,
    Recording,
    /// Resampling on a worker thread; the window stays responsive.
    Finalizing,
}

/// A live input stream that is not (yet) being written anywhere.
#[derive(Clone, Copy, PartialEq, Eq, Structural, Debug)]
pub struct Monitor {
    pub channels: u16,
    pub rate: u32,
    pub native_target_rate: bool,
}

/// What is known of the link that is held.
#[derive(Clone, Debug)]
pub struct LinkInfo {
    /// Where it listens or whom it follows; `None` while it is only browsing.
    pub address: Option<String>,
    /// The certificate fingerprint a follower should be told to pin, when leading.
    pub fingerprint: Option<String>,
}

/// An address of a leader.
#[derive(Clone, Debug)]
pub struct LeaderAddress {
    pub text: String,
    pub ipv4: bool,
}

/// A leader seen on the LAN.
#[derive(Clone, Debug)]
pub struct LeaderFound {
    pub name: String,
    pub addresses: Vec<LeaderAddress>,
    pub fingerprint: String,
}

/// The address to use of a leader: the first IPv4 one, since a link-local IPv6 address needs a
/// scope that the operator cannot see and cannot fix; else the first.
pub open spec fn preferred(s: Seq<LeaderAddress>) -> Option<int> {
    match first_ipv4(s) {
        Some(i) => Some(i),
        None => if s.len() > 0 {
            Some(0int)
        } else {
            None
        },
    }
}

pub open spec fn first_ipv4(s: Seq<LeaderAddress>) -> Option<int>
    decreases s.len(),
{
    if s.len() == 0 {
        None
    } else {
        match first_ipv4(s.drop_last()) {
            Some(i) => Some(i),
            None => if s.last().ipv4 {
                Some(s.len() - 1)
            } else {
                None
            },
        }
    }
}

proof fn lemma_first_ipv4(s: Seq<LeaderAddress>, k: int)
    requires
        0 <= k <= s.len(),
        first_ipv4(s.take(k)) is Some,
    ensures
        first_ipv4(s) == first_ipv4(s.take(k)),
    decreases s.len() - k,
{
    if k == s.len() {
        assert(s.take(k) =~= s);
    } else {
        assert(s.take(k + 1).drop_last() =~= s.take(k));
        lemma_first_ipv4(s, k + 1);
    }
}

pub fn preferred_address(addresses: &Vec<LeaderAddress>) -> (r: Option<usize>)
    ensures
        (match r {
            None => preferred(addresses@) is None,
            Some(i) => preferred(addresses@) == Some(i as int),
        }),
        r is Some ==> r->0 < addresses@.len(),
{
    let mut i: usize = 0;
    assert(addresses@.take(0) =~= Seq::<LeaderAddress>::empty());
    while i < addresses.len()
        invariant
            i <= addresses@.len(),
            first_ipv4(addresses@.take(i as int)) is None,
        decreases addresses@.len() - i,
    {
        assert(addresses@.take(i + 1).drop_last() =~= addresses@.take(i as int));
        assert(addresses@.take(i + 1).last() == addresses@[i as int]);
        if addresses[i].ipv4 {
            proof {
                lemma_first_ipv4(addresses@, i + 1);
            }
            return Some(i);
        }
        i = i + 1;
    }
    assert(addresses@.take(i as int) =~= addresses@);
    if addresses.len() > 0 {
        Some(0)
    } else {
        None
    }
}

/// What a tick finds, gathered before anything is decided.
pub struct TickInput {
    /// The operator's answer to the permission prompt, if it has come.
    pub permission: Option<PermissionStatus>,
    /// The leaders that a browsing link sees.
    pub discovered: Vec<LeaderFound>,
    /// Whether the typed leader address resolves to one.
    pub typed: bool,
    /// Whether the transport of the leader runs, as far as a link can tell.
    pub rolling: Option<bool>,
    pub now: Instant,
    /// How finalising ended, if it has.
    pub finished: Option<Result<Outcome, String>>,
}

pub enum Message {
    Tick(TickInput),
    RefreshDevices,
    DeviceSelected(DeviceChoice),
    BrowseDir,
    DirPicked(Option<String>),
    BaseNameChanged(String),
    ToggleRecord,
    RequestPermission,
    OpenPrivacySettings,
    ClearClip,
    ShowSettings,
    ShowRecorder,
    SourceSelected(TimeSource),
    NtpServerChanged(String),
    NtpServerCommitted,
    /// The text, and the number that it reads as.
    TrimChanged(String, Option<F64>),
    RoleSelected(Role),
    FpsSelected(Fps),
    DropFrameToggled(bool),
    LeaderNameChanged(String),
    LeaderPortChanged(String),
    FollowerAddressChanged(String),
    LinkSettingsCommitted,
    UseDiscovered(String),
}

/// Something to do outside.
#[derive(Clone, Copy, PartialEq, Eq, Structural, Debug)]
pub enum Action {
    /// List the input devices, for [`App::devices_listed`].
    ListDevices,
    /// Close the monitoring stream.
    CloseMonitor,
    /// Open a monitoring stream on the selected device, for [`App::monitor_opened`].
    OpenMonitor,
    /// Ask for a folder, for [`Message::DirPicked`].
    PickFolder,
    /// Find the next take that is free, for [`App::refresh_preview`].
    Preview,
    /// Prompt for the microphone, for [`App::permission_asked`].
    AskPermission,
    /// Open the privacy settings, for [`App::reported`].
    OpenPrivacySettings,
    /// Clear the clip latches of the monitoring stream.
    ClearClip,
    /// Save the settings, for [`App::settings_saved`].
    SaveSettings,
    /// Stop polling the time server.
    StopPolling,
    /// Start over with an empty clock model.
    ResetClock,
    /// Poll [`App::poll_server`].
    StartPolling,
    /// Shut the link down.
    DropLink,
    /// Set up the link of [`App::link_plan`], for [`App::link_opened`].
    OpenLink,
    /// Read the reference, for [`App::refresh_status`].
    ReadStatus,
    /// Read the meters of [`App::level_source`], for [`App::levels_read`].
    ReadLevels,
    /// Empty the ring of the monitoring stream, which nothing else drains.
    DrainMonitor,
    /// Look up the leader's addresses, for [`App::endpoints_listed`].
    ListEndpoints,
    /// Follow the leader of [`App::adopt`], for [`App::adopted`].
    Adopt,
    /// Roll the transport, for [`App::rolled`].
    Roll,
    /// Stop the transport, for [`App::reported`].
    Halt,
    /// Stop the transport if [`App::halt_due`], whatever comes of it.
    HaltUnlessRecording,
    /// Begin a take, from [`App::start_recording`] on.
    StartTake,
    /// End the take, from [`App::stop_recording`] on.
    StopTake,
}

/// Everything the window remembers.
pub struct App {
    pub devices: Vec<DeviceChoice>,
    pub selected: Option<DeviceChoice>,
    pub monitor: Option<Monitor>,
    pub output_dir: String,
    pub base_name: String,
    pub settings: Settings,
    /// Text mirrors for the numeric settings, so that a half-typed value is not thrown away
    /// between keystrokes.
    pub trim_text: String,
    pub port_text: String,
    pub screen: Screen,
    pub link: Option<LinkInfo>,
    /// Leaders seen on the LAN while browsing.
    pub discovered: Vec<LeaderFound>,
    /// Addresses a follower could be pointed at, when leading.
    pub endpoints: Vec<Endpoint>,
    pub endpoints_checked: Instant,
    /// A discovered address that would not connect, so that it is not hammered.
    pub refused: Option<String>,
    /// The leader's transport state as of the last tick, for edge detection.
    pub rolling: Option<bool>,
    /// The leader rolled again while the last take was still being finalised.
    pub pending_roll: bool,
    pub status: RefStatus,
    pub timecode: Option<String>,
    pub permission: PermissionStatus,
    /// Whether a prompt for the microphone is open.
    pub asking: bool,
    pub stage: Stage,
    pub take: Option<TakePaths>,
    pub last_result: Option<String>,
    pub error: Option<String>,
    pub next_preview: String,
    pub peaks: Vec<F32>,
    pub rms: Vec<F32>,
    pub clips: Vec<bool>,
}

/// The status of a reference that is not there yet.
pub open spec fn offline_view(label: Seq<char>) -> StatusView {
    StatusView {
        kind: "clock"@,
        source: "no clock"@,
        synced: false,
        label,
        samples: None,
        discarded: None,
        dispersion_s: None,
        slope_ppm: None,
    }
}

/// A reference that is not there yet. Never synced, so that nothing downstream can mistake "we
/// have not started looking" for "the clock is fine".
pub fn offline_status(label: &str) -> (r: RefStatus)
    ensures
        r@ == offline_view(label@),
{
    RefStatus {
        kind: String::from_str("clock"),
        source: String::from_str("no clock"),
        synced: false,
        label: String::from_str(label),
        samples: None,
        discarded: None,
        dispersion_s: None,
        slope_ppm: None,
    }
}

/// An absent reference never reads as ready.
pub proof fn law_an_absent_reference_is_never_ready(label: Seq<char>)
    ensures
        !offline_view(label).is_ready(),
{
}

/// A character of a take's name as it may stand in a file name.
pub open spec fn cleaned_char(c: char) -> char {
    if c == '/' || c == '\\' || c == ':' {
        '-'
    } else {
        c
    }
}

pub open spec fn cleaned(s: Seq<char>) -> Seq<char> {
    Seq::new(s.len(), |i: int| cleaned_char(s[i]))
}

/// Keeps a sequence name usable as a file name.
pub fn clean_name(s: &str) -> (r: String)
    ensures
        r@ == cleaned(s@),
{
    let n: usize = s.unicode_len();
    let mut out: String = String::new();
    let mut i: usize = 0;
    proof {
        reveal_strlit("-");
    }
    while i < n
        invariant
            n == s@.len(),
            i <= n,
            "-"@ =~= seq!['-'],
            out@ == cleaned(s@.take(i as int)),
        decreases n - i,
    {
        let c: char = s.get_char(i);
        if c == '/' || c == '\\' || c == ':' {
            out.append("-");
        } else {
            out.append(s.substring_char(i, i + 1));
        }
        i = i + 1;
        assert(out@ =~= cleaned(s@.take(i as int)));
    }
    assert(s@.take(i as int) =~= s@);
    out
}

/// A cleaned name holds none of the characters that separate paths, and is as long as what was
/// typed; one that holds none is kept as it is.
pub proof fn law_a_cleaned_name_is_one_component(s: Seq<char>)
    ensures
        forall|i: int|
            0 <= i < cleaned(s).len() ==> (#[trigger] cleaned(s)[i]) != '/' && cleaned(s)[i]
                != '\\' && cleaned(s)[i] != ':',
        cleaned(s).len() == s.len(),
        (forall|i: int| 0 <= i < s.len() ==> #[trigger] cleaned_char(s[i]) == s[i]) ==> cleaned(s)
            == s,
{
    if forall|i: int| 0 <= i < s.len() ==> #[trigger] cleaned_char(s[i]) == s[i] {
        assert(cleaned(s) =~= s);
    }
}

/// The base name to number takes under.
pub open spec fn base_of(typed: Seq<char>) -> Seq<char> {
    if settings::trimmed(typed).len() == 0 {
        "rec"@
    } else {
        settings::trimmed(typed)
    }
}

/// A number as it is typed, without the plus sign that may stand before it.
pub open spec fn unsigned_part(s: Seq<char>) -> Seq<char> {
    if s.len() > 0 && s[0] == '+' {
        s.skip(1)
    } else {
        s
    }
}

pub open spec fn all_digits(s: Seq<char>) -> bool {
    forall|i: int| 0 <= i < s.len() ==> text::is_digit(#[trigger] s[i])
}

/// A port number as it is typed: digits, after a plus sign or not, and no more than the
/// highest port.
pub open spec fn port_in(s: Seq<char>) -> Option<u16> {
    let digits = unsigned_part(s);
    if digits.len() > 0 && all_digits(digits) && text::digits_number(digits) <= u16::MAX {
        Some(text::digits_number(digits) as u16)
    } else {
        None
    }
}

proof fn lemma_number_grows(s: Seq<char>, k: int)
    requires
        0 <= k <= s.len(),
    ensures
        text::digits_number(s.take(k)) <= text::digits_number(s),
    decreases s.len() - k,
{
    if k == s.len() {
        assert(s.take(k) =~= s);
    } else {
        assert(s.take(k + 1).drop_last() =~= s.take(k));
        lemma_number_grows(s, k + 1);
    }
}

pub fn parse_port(s: &str) -> (r: Option<u16>)
    ensures
        r == port_in(s@),
{
    let n: usize = s.unicode_len();
    let start: usize = if n > 0 && s.get_char(0) == '+' { 1 } else { 0 };
    let ghost digits = unsigned_part(s@);
    assert(digits =~= s@.skip(start as int));
    if start == n {
        return None;
    }
    let mut acc: u32 = 0;
    let mut i: usize = start;
    assert(digits.take(0) =~= Seq::<char>::empty());
    while i < n
        invariant
            n == s@.len(),
            start <= i <= n,
            digits == s@.skip(start as int),
            digits == unsigned_part(s@),
            acc <= u16::MAX,
            acc == text::digits_number(digits.take(i - start)),
            forall|k: int| 0 <= k < i - start ==> text::is_digit(#[trigger] digits[k]),
        decreases n - i,
    {
        let c: char = s.get_char(i);
        let d: u32 = c as u32;
        let ghost k = i - start;
        assert(digits[k] == c);
        if d < 48 || d > 57 {
            assert(!text::is_digit(digits[k]));
            assert(!all_digits(digits));
            return None;
        }
        assert(digits.take(k + 1).drop_last() =~= digits.take(k));
        assert(digits.take(k + 1).last() == c);
        acc = acc * 10 + (d - 48);
        if acc > 65_535 {
            proof {
                lemma_number_grows(digits, k + 1);
            }
            return None;
        }
        i = i + 1;
    }
    assert(digits.take(i - start) =~= digits);
    Some(acc as u16)
}

/// Reopening the monitoring stream.
pub open spec fn monitor_actions(selected: Option<DeviceChoice>) -> Seq<Action> {
    if selected is Some {
        seq![Action::CloseMonitor, Action::OpenMonitor]
    } else {
        seq![Action::CloseMonitor]
    }
}

/// Starting the clock model over, and polling for it where a server is named.
pub open spec fn clock_actions(server: Seq<char>) -> Seq<Action> {
    if settings::trimmed(server).len() > 0 {
        seq![Action::StopPolling, Action::ResetClock, Action::StartPolling]
    } else {
        seq![Action::StopPolling, Action::ResetClock]
    }
}

/// Setting the link up anew. The old engine owns a thread, a socket and possibly a service
/// registration, so it goes first.
pub open spec fn link_actions() -> Seq<Action> {
    seq![Action::DropLink, Action::OpenLink]
}

/// Tearing down whichever reference is running and starting the configured one.
pub open spec fn source_actions(s: Settings) -> Seq<Action> {
    seq![Action::StopPolling, Action::DropLink] + match s.source {
        TimeSource::Ntp => clock_actions(s.ntp_server@),
        TimeSource::Ethersync => link_actions(),
    } + seq![Action::ReadStatus]
}

fn push_all(out: &mut Vec<Action>, more: &Vec<Action>)
    ensures
        final(out)@ == old(out)@ + more@,
{
    let mut i: usize = 0;
    assert(out@ =~= old(out)@ + more@.take(0));
    while i < more.len()
        invariant
            i <= more@.len(),
            out@ == old(out)@ + more@.take(i as int),
        decreases more@.len() - i,
    {
        out.push(more[i]);
        i = i + 1;
        assert(out@ =~= old(out)@ + more@.take(i as int));
    }
    assert(more@.take(i as int) =~= more@);
}

fn just(action: Action) -> (r: Vec<Action>)
    ensures
        r@ == seq![action],
{
    let mut v: Vec<Action> = Vec::new();
    v.push(action);
    assert(v@ =~= seq![action]);
    v
}

fn nothing() -> (r: Vec<Action>)
    ensures
        r@ == Seq::<Action>::empty(),
{
    Vec::new()
}

/// Whether a device with some identifier is in a list.
pub open spec fn is_listed(devices: Seq<DeviceChoice>, id: Seq<char>) -> bool {
    exists|i: int| 0 <= i < devices.len() && (#[trigger] devices[i]).id@ == id
}

fn lists(devices: &Vec<DeviceChoice>, id: &str) -> (r: bool)
    ensures
        r == is_listed(devices@, id@),
{
    let mut i: usize = 0;
    while i < devices.len()
        invariant
            i <= devices@.len(),
            forall|k: int| 0 <= k < i ==> (#[trigger] devices@[k]).id@ != id@,
        decreases devices@.len() - i,
    {
        if same_text(devices[i].id.as_str(), id) {
            assert(devices@[i as int].id@ == id@);
            return true;
        }
        i = i + 1;
    }
    false
}

/// Why a take did not begin.
pub enum TakeFailure {
    /// The take folder could not be created.
    Folder(String),
    /// There is no reference to measure against.
    Reference(String),
    /// The stream could not be opened or handed over.
    Stream(String),
}

/// How to set the link up.
pub enum LinkPlan {
    Leader { name: String, port: u16, format: TimecodeFormat },
    /// Follow the typed leader where its address resolves; else browse, and take the first
    /// leader that answers.
    Follower { typed: Option<String>, format: TimecodeFormat },
}

/// Whose meters are shown.
#[derive(Clone, Copy, PartialEq, Eq, Structural, Debug)]
pub enum LevelSource {
    Take,
    Monitor,
    Nobody,
}

impl App {
    /// A window at launch, and what to do first.
    ///
    /// The microphone is asked for before any device is touched, so that the first thing the
    /// operator sees is the system prompt rather than an inscrutable failure.
    pub fn boot(
        saved: Settings,
        output_dir: String,
        permission: PermissionStatus,
        now: Instant,
    ) -> (r: (App, Vec<Action>))
        ensures
            r.0.devices@.len() == 0 && r.0.selected is None && r.0.monitor is None,
            r.0.output_dir == output_dir,
            r.0.base_name@ == "rec"@,
            r.0.settings == saved,
            r.0.trim_text@ == text::fixed(saved.trim_ms, 1),
            r.0.port_text@ == text::decimal(saved.leader_port as nat),
            r.0.screen == Screen::Record,
            r.0.link is None && r.0.refused is None && r.0.rolling is None,
            r.0.discovered@.len() == 0 && r.0.endpoints@.len() == 0,
            r.0.endpoints_checked == now,
            !r.0.pending_roll,
            r.0.status@ == offline_view("starting"@),
            r.0.timecode is None,
            r.0.permission == permission,
            !r.0.asking,
            r.0.stage == Stage::Idle,
            r.0.take is None && r.0.last_result is None && r.0.error is None,
            r.0.next_preview@.len() == 0,
            r.0.peaks@.len() == 0 && r.0.rms@.len() == 0 && r.0.clips@.len() == 0,
            r.1@ == seq![Action::Preview] + source_actions(saved) + seq![
                if permission == PermissionStatus::NotDetermined {
                    Action::AskPermission
                } else {
                    Action::ListDevices
                },
            ],
    {
        let trim_text: String = format_trim(saved.trim_ms);
        let mut port_text: String = String::new();
        push_decimal(&mut port_text, saved.leader_port as u128);
        assert(port_text@ =~= text::decimal(saved.leader_port as nat));
        let mut app = App {
            devices: Vec::new(),
            selected: None,
            monitor: None,
            output_dir,
            base_name: String::from_str("rec"),
            settings: saved,
            trim_text,
            port_text,
            screen: Screen::Record,
            link: None,
            discovered: Vec::new(),
            endpoints: Vec::new(),
            endpoints_checked: now,
            refused: None,
            rolling: None,
            pending_roll: false,
            status: offline_status("starting"),
            timecode: None,
            permission,
            asking: false,
            stage: Stage::Idle,
            take: None,
            last_result: None,
            error: None,
            next_preview: String::new(),
            peaks: Vec::new(),
            rms: Vec::new(),
            clips: Vec::new(),
        };
        let mut actions: Vec<Action> = just(Action::Preview);
        let started: Vec<Action> = app.apply_time_source();
        push_all(&mut actions, &started);
        if permission.can_prompt() {
            actions.push(Action::AskPermission);
        } else {
            actions.push(Action::ListDevices);
        }
        assert(actions@ =~= seq![Action::Preview] + source_actions(saved) + seq![
            if permission == PermissionStatus::NotDetermined {
                Action::AskPermission
            } else {
                Action::ListDevices
            },
        ]);
        (app, actions)
    }

    /// Whether the clock is good enough for a take to be correctable: the condition that the
    /// safety gate applies, checked up front.
    pub fn clock_ready(&self) -> (r: bool)
        ensures
            r == self.status@.is_ready(),
    {
        self.status.ready()
    }

    pub open spec fn leads(&self) -> bool {
        self.settings.source == TimeSource::Ethersync && self.settings.role == Role::Leader
            && self.link is Some
    }

    /// Whether this machine is driving the rig's transport.
    pub fn leading(&self) -> (r: bool)
        ensures
            r == self.leads(),
    {
        self.settings.source == TimeSource::Ethersync && self.settings.role == Role::Leader
            && self.link.is_some()
    }

    pub open spec fn follows(&self) -> bool {
        self.settings.source == TimeSource::Ethersync && self.settings.role == Role::Follower
    }

    /// Whether this machine's record button belongs to somebody else.
    pub fn slaved(&self) -> (r: bool)
        ensures
            r == self.follows(),
    {
        self.settings.source == TimeSource::Ethersync && self.settings.role == Role::Follower
    }

    /// Nothing is known of a link any more.
    pub open spec fn unlinked(&self, before: App) -> bool {
        &&& *self == (App {
            link: None,
            refused: None,
            rolling: None,
            discovered: self.discovered,
            endpoints: self.endpoints,
            ..before
        })
        &&& self.discovered@.len() == 0
        &&& self.endpoints@.len() == 0
    }

    fn forget_link(&mut self)
        ensures
            final(self).unlinked(*old(self)),
    {
        self.link = None;
        self.refused = None;
        self.rolling = None;
        self.discovered = Vec::new();
        self.endpoints = Vec::new();
    }

    fn restart_clock(&self) -> (r: Vec<Action>)
        ensures
            r@ == clock_actions(self.settings.ntp_server@),
    {
        let mut actions: Vec<Action> = just(Action::StopPolling);
        actions.push(Action::ResetClock);
        if self.poll_server().is_some() {
            actions.push(Action::StartPolling);
        }
        assert(actions@ =~= clock_actions(self.settings.ntp_server@));
        actions
    }

    /// The server to poll, where one is named.
    pub fn poll_server(&self) -> (r: Option<String>)
        ensures
            r is None <==> settings::trimmed(self.settings.ntp_server@).len() == 0,
            r is Some ==> r->0@ == settings::trimmed(self.settings.ntp_server@),
    {
        let server: String = trim(self.settings.ntp_server.as_str());
        if server.as_str().unicode_len() == 0 {
            None
        } else {
            Some(server)
        }
    }

    /// Stand up the link for the configured role.
    fn relink(&mut self) -> (r: Vec<Action>)
        ensures
            final(self).unlinked(*old(self)),
            r@ == link_actions(),
    {
        self.forget_link();
        let mut actions: Vec<Action> = just(Action::DropLink);
        actions.push(Action::OpenLink);
        assert(actions@ =~= link_actions());
        actions
    }

    /// Tear down whichever reference is running and start the configured one.
    fn apply_time_source(&mut self) -> (r: Vec<Action>)
        ensures
            final(self).unlinked(App { pending_roll: false, ..*old(self) }),
            r@ == source_actions(old(self).settings),
    {
        self.forget_link();
        self.pending_roll = false;
        let mut actions: Vec<Action> = just(Action::StopPolling);
        actions.push(Action::DropLink);
        let started: Vec<Action> = match self.settings.source {
            TimeSource::Ntp => self.restart_clock(),
            TimeSource::Ethersync => {
                let mut v: Vec<Action> = just(Action::DropLink);
                v.push(Action::OpenLink);
                assert(v@ =~= link_actions());
                v
            },
        };
        push_all(&mut actions, &started);
        actions.push(Action::ReadStatus);
        assert(actions@ =~= source_actions(old(self).settings));
        actions
    }

    /// The link that the settings ask for.
    pub fn link_plan(&self) -> (r: LinkPlan)
        ensures
            (match r {
                LinkPlan::Leader { name, port, format } => self.settings.role == Role::Leader
                    && name@ == self.settings.leader_name@ && port == self.settings.leader_port
                    && format == self.settings.fps.format_of(self.settings.drop_frame),
                LinkPlan::Follower { typed, format } => self.settings.role == Role::Follower
                    && format == self.settings.fps.format_of(self.settings.drop_frame)
                    && (typed is None <==> settings::trimmed(
                    self.settings.follower_address@,
                ).len() == 0) && (typed is Some ==> typed->0@ == settings::trimmed(
                    self.settings.follower_address@,
                )),
            }),
    {
        let format: TimecodeFormat = self.settings.fps.format(self.settings.drop_frame);
        match self.settings.role {
            Role::Leader => LinkPlan::Leader {
                name: self.settings.leader_name.clone(),
                port: self.settings.leader_port,
                format,
            },
            Role::Follower => LinkPlan::Follower {
                typed: self.settings.follower_target(),
                format,
            },
        }
    }

    /// The link was set up, and is reachable at these addresses; or it was not.
    pub fn link_opened(&mut self, result: Result<LinkInfo, String>, endpoints: Vec<Endpoint>)
        ensures
            *final(self) == (match result {
                Ok(link) => App { link: Some(link), endpoints, error: None, ..*old(self) },
                Err(e) => App { error: Some(e), ..*old(self) },
            }),
    {
        match result {
            Ok(link) => {
                self.endpoints = endpoints;
                self.link = Some(link);
                self.error = None;
            },
            Err(e) => {
                self.error = Some(e);
            },
        }
    }

    /// The leader's addresses were looked up.
    pub fn endpoints_listed(&mut self, endpoints: Vec<Endpoint>)
        ensures
            *final(self) == (App { endpoints, ..*old(self) }),
    {
        self.endpoints = endpoints;
    }

    /// What the reference says of itself, for the source that is configured.
    pub open spec fn status_of(
        &self,
        snapshot: Option<ClockSnapshot>,
        link: Option<(RefStatus, Option<String>)>,
    ) -> StatusView {
        match self.settings.source {
            TimeSource::Ntp => match snapshot {
                Some(snap) => NtpReference::status_view_of(self.settings.ntp_server@, snap),
                None => offline_view("clock unavailable"@),
            },
            TimeSource::Ethersync => match link {
                Some(l) => l.0@,
                None => offline_view("no link"@),
            },
        }
    }

    /// Takes in what was read of the reference: the clock model, or the link's status and its
    /// timecode.
    pub fn refresh_status(
        &mut self,
        snapshot: Option<ClockSnapshot>,
        link: Option<(RefStatus, Option<String>)>,
    )
        ensures
            *final(self) == (App {
                status: final(self).status,
                timecode: if old(self).settings.source == TimeSource::Ethersync && link is Some {
                    (link->0).1
                } else {
                    None
                },
                ..*old(self)
            }),
            final(self).status@ == old(self).status_of(snapshot, link),
    {
        match self.settings.source {
            TimeSource::Ntp => {
                let status: RefStatus = match snapshot {
                    Some(snap) => NtpReference::status_of(
                        self.settings.ntp_server.as_str(),
                        &snap,
                    ),
                    None => offline_status("clock unavailable"),
                };
                self.status = status;
                self.timecode = None;
            },
            TimeSource::Ethersync => match link {
                Some((status, label)) => {
                    self.status = status;
                    self.timecode = label;
                },
                None => {
                    self.status = offline_status("no link");
                    self.timecode = None;
                },
            },
        }
    }

    /// Whether the leader's addresses are to be looked up again: only while anyone is looking,
    /// and not on every redraw.
    pub open spec fn endpoints_due(&self, now: Instant) -> bool {
        self.screen == Screen::Settings && self.settings.role == Role::Leader && now.nanos
            - self.endpoints_checked.nanos >= ENDPOINTS_EVERY
    }

    /// The address of the first leader the LAN offers, where this machine is waiting for one,
    /// and that has not been refused.
    pub open spec fn adoptable(&self, typed: bool) -> Option<int> {
        if typed || self.discovered@.len() == 0 {
            None
        } else {
            match preferred(self.discovered@[0].addresses@) {
                None => None,
                Some(i) => if self.refused is Some && self.refused->0@
                    == self.discovered@[0].addresses@[i].text@ {
                    None
                } else {
                    Some(i)
                },
            }
        }
    }

    fn find_adoptable(&self, typed: bool) -> (r: Option<usize>)
        ensures
            (match r {
                None => self.adoptable(typed) is None,
                Some(i) => self.adoptable(typed) == Some(i as int),
            }),
            r is Some ==> self.discovered@.len() > 0 && r->0 < self.discovered@[0].addresses@.len(),
    {
        if typed || self.discovered.len() == 0 {
            return None;
        }
        let leader: &LeaderFound = &self.discovered[0];
        match preferred_address(&leader.addresses) {
            None => None,
            Some(i) => match &self.refused {
                None => Some(i),
                Some(bad) => if same_text(bad.as_str(), leader.addresses[i].text.as_str()) {
                    None
                } else {
                    Some(i)
                },
            },
        }
    }

    /// The address and the fingerprint of the leader to follow, where there is one to adopt.
    /// The browsing link goes.
    pub fn adopt(&mut self, typed: bool) -> (r: Option<(String, String)>)
        ensures
            (match (r, old(self).adoptable(typed)) {
                (Some((address, fingerprint)), Some(i)) => *final(self) == (App {
                    link: None,
                    ..*old(self)
                }) && address@ == old(self).discovered@[0].addresses@[i].text@ && fingerprint@
                    == old(self).discovered@[0].fingerprint@,
                (None, None) => *final(self) == *old(self),
                _ => false,
            }),
    {
        match self.find_adoptable(typed) {
            None => None,
            Some(i) => {
                let address: String = self.discovered[0].addresses[i].text.clone();
                let fingerprint: String = self.discovered[0].fingerprint.clone();
                self.link = None;
                Some((address, fingerprint))
            },
        }
    }

    /// Following the adopted leader came to this. Where it failed, the address is not tried
    /// again, and `browsing` is the link that goes on looking.
    pub fn adopted(
        &mut self,
        address: String,
        result: Result<LinkInfo, String>,
        browsing: Option<LinkInfo>,
    )
        ensures
            *final(self) == (match result {
                Ok(link) => App { link: Some(link), rolling: None, error: None, ..*old(self) },
                Err(e) => App {
                    error: Some(e),
                    refused: Some(address),
                    link: browsing,
                    ..*old(self)
                },
            }),
    {
        match result {
            Ok(link) => {
                self.link = Some(link);
                self.rolling = None;
                self.error = None;
            },
            Err(e) => {
                self.error = Some(e);
                self.refused = Some(address);
                self.link = browsing;
            },
        }
    }

    /// What a change of the leader's transport calls for here.
    pub open spec fn transport_actions(&self, rolling: bool) -> Seq<Action> {
        if self.rolling == Some(rolling) {
            Seq::empty()
        } else {
            match (self.stage, rolling) {
                (Stage::Idle, true) => seq![Action::StartTake],
                (Stage::Recording, false) => seq![Action::StopTake],
                _ => Seq::empty(),
            }
        }
    }

    /// Mirror the leader's transport onto this machine's recorder. A roll that comes while the
    /// last take is still being finalised is remembered.
    pub fn follow_transport(&mut self, rolling: bool) -> (r: Vec<Action>)
        ensures
            *final(self) == (App {
                rolling: Some(rolling),
                pending_roll: old(self).pending_roll || (old(self).rolling != Some(rolling)
                    && old(self).stage == Stage::Finalizing && rolling),
                ..*old(self)
            }),
            r@ == old(self).transport_actions(rolling),
    {
        if self.rolling == Some(rolling) {
            return nothing();
        }
        self.rolling = Some(rolling);
        match (self.stage, rolling) {
            (Stage::Idle, true) => just(Action::StartTake),
            (Stage::Recording, false) => just(Action::StopTake),
            (Stage::Finalizing, true) => {
                self.pending_roll = true;
                nothing()
            },
            _ => nothing(),
        }
    }

    /// The link is only browsing.
    pub open spec fn browses(&self) -> bool {
        self.link is Some && self.link->0.address is None
    }

    /// The link knows the leader whose transport this machine mirrors.
    pub open spec fn watches(&self) -> bool {
        self.follows() && self.link is Some && self.link->0.address is Some
    }

    /// What servicing the link calls for.
    pub open spec fn service_actions(
        &self,
        discovered: Vec<LeaderFound>,
        typed: bool,
        rolling: Option<bool>,
    ) -> Seq<Action> {
        if self.browses() {
            if (App { discovered, ..*self }).adoptable(typed) is Some {
                seq![Action::Adopt]
            } else {
                Seq::empty()
            }
        } else if self.watches() && rolling is Some {
            self.transport_actions(rolling->0)
        } else {
            Seq::empty()
        }
    }

    /// What looking after the link calls for in a tick.
    pub open spec fn upkeep_actions(
        &self,
        discovered: Vec<LeaderFound>,
        typed: bool,
        rolling: Option<bool>,
        now: Instant,
    ) -> Seq<Action> {
        if self.settings.source == TimeSource::Ethersync {
            self.service_actions(discovered, typed, rolling) + if self.endpoints_due(now)
                && self.link is Some {
                seq![Action::ListEndpoints]
            } else {
                Seq::empty()
            }
        } else {
            Seq::empty()
        }
    }

    /// Where finalising has ended and how.
    pub open spec fn finishes(&self, t: &TickInput) -> bool {
        self.stage == Stage::Finalizing && t.finished is Some
    }

    /// Whether a transport state is taken over.
    pub open spec fn hears(&self, rolling: Option<bool>) -> bool {
        self.settings.source == TimeSource::Ethersync && !self.browses() && self.watches()
            && rolling is Some
    }

    pub open spec fn rolling_after(&self, rolling: Option<bool>) -> Option<bool> {
        if self.hears(rolling) {
            rolling
        } else {
            self.rolling
        }
    }

    /// Whether a roll is owed once finalising is over.
    pub open spec fn roll_owed(&self, rolling: Option<bool>) -> bool {
        self.pending_roll || (self.hears(rolling) && self.rolling != rolling && self.stage
            == Stage::Finalizing && rolling == Some(true))
    }

    /// Whether a tick only takes the operator's consent and looks for devices at last.
    pub open spec fn consents(&self, t: &TickInput) -> bool {
        self.asking && t.permission is Some && t.permission->0 != PermissionStatus::Denied
    }

    #[verifier::opaque]
    pub open spec fn tick_actions(&self, t: &TickInput) -> Seq<Action> {
        if self.consents(t) {
            seq![Action::ListDevices]
        } else {
            self.upkeep_actions(t.discovered, t.typed, t.rolling, t.now) + seq![
                Action::ReadStatus,
                Action::ReadLevels,
                Action::DrainMonitor,
            ] + (
            if self.finishes(t) {
                seq![Action::Preview] + monitor_actions(self.selected) + if self.roll_owed(t.rolling)
                    && self.rolling_after(t.rolling) == Some(true) {
                    seq![Action::StartTake]
                } else {
                    Seq::empty()
                }
            } else {
                Seq::empty()
            })
        }
    }

    /// The window after a tick.
    #[verifier::opaque]
    pub open spec fn ticked(&self, before: App, t: &TickInput) -> bool {
        let heard = before.asking && t.permission is Some;
        let permission = if heard {
            t.permission->0
        } else {
            before.permission
        };
        if before.consents(t) {
            *self == (App { permission, asking: false, ..before })
        } else {
            let linked = before.settings.source == TimeSource::Ethersync;
            let done = before.finishes(t);
            &&& *self == (App {
                permission,
                asking: before.asking && !heard,
                discovered: if linked && before.browses() {
                    t.discovered
                } else {
                    before.discovered
                },
                rolling: before.rolling_after(t.rolling),
                endpoints_checked: if linked && before.endpoints_due(t.now) {
                    t.now
                } else {
                    before.endpoints_checked
                },
                pending_roll: !done && before.roll_owed(t.rolling),
                stage: if done {
                    Stage::Idle
                } else {
                    before.stage
                },
                monitor: if done {
                    None
                } else {
                    before.monitor
                },
                error: if done && t.finished->0 is Err {
                    Some(t.finished->0->Err_0)
                } else {
                    before.error
                },
                last_result: self.last_result,
                ..before
            })
            &&& if done && t.finished->0 is Ok {
                self.last_result is Some && self.last_result->0@ == take::outcome_text(
                    before.take_name(),
                    &t.finished->0->Ok_0,
                )
            } else {
                self.last_result == before.last_result
            }
        }
    }

    /// The file name of the take at hand.
    pub open spec fn take_name(&self) -> Seq<char> {
        match self.take {
            Some(paths) => take::name_in(paths.final_wav@),
            None => Seq::empty(),
        }
    }

    /// Finalising has ended. The window goes back to monitoring, and rolls at once if the
    /// leader rolled again meanwhile.
    fn finish_take(&mut self, result: Result<Outcome, String>) -> (r: Vec<Action>)
        ensures
            *final(self) == (App {
                pending_roll: false,
                stage: Stage::Idle,
                monitor: None,
                error: if result is Err {
                    Some(result->Err_0)
                } else {
                    old(self).error
                },
                last_result: final(self).last_result,
                ..*old(self)
            }),
            (if result is Ok {
                final(self).last_result is Some && final(self).last_result->0@
                    == take::outcome_text(old(self).take_name(), &result->Ok_0)
            } else {
                final(self).last_result == old(self).last_result
            }),
            r@ == seq![Action::Preview] + monitor_actions(old(self).selected)
                + if old(self).pending_roll && old(self).rolling == Some(true) {
                seq![Action::StartTake]
            } else {
                Seq::empty()
            },
    {
        match result {
            Ok(outcome) => {
                let name: String = match &self.take {
                    Some(paths) => file_name(paths.final_wav.as_str()),
                    None => String::new(),
                };
                assert(name@ =~= old(self).take_name());
                self.last_result = Some(describe_outcome(name.as_str(), &outcome));
            },
            Err(e) => {
                self.error = Some(e);
            },
        }
        self.stage = Stage::Idle;
        let mut actions: Vec<Action> = just(Action::Preview);
        let reopened: Vec<Action> = self.reopen_monitor();
        push_all(&mut actions, &reopened);
        let owed: bool = self.pending_roll;
        self.pending_roll = false;
        if owed && self.rolling == Some(true) {
            actions.push(Action::StartTake);
        }
        assert(actions@ =~= seq![Action::Preview] + monitor_actions(old(self).selected)
            + if old(self).pending_roll && old(self).rolling == Some(true) {
            seq![Action::StartTake]
        } else {
            Seq::empty()
        });
        actions
    }

    /// Takes in the answer to an open prompt. Answers whether capture can be attempted at last.
    fn take_answer(&mut self, answer: Option<PermissionStatus>) -> (r: bool)
        ensures
            r == (old(self).asking && answer is Some && answer->0 != PermissionStatus::Denied),
            *final(self) == if old(self).asking && answer is Some {
                App { permission: answer->0, asking: false, ..*old(self) }
            } else {
                *old(self)
            },
    {
        if self.asking {
            if let Some(status) = answer {
                self.permission = status;
                self.asking = false;
                return status.can_attempt_capture();
            }
        }
        false
    }

    /// Services the link: browses, or mirrors the transport.
    fn service_link(
        &mut self,
        discovered: Vec<LeaderFound>,
        typed: bool,
        rolling: Option<bool>,
    ) -> (r: Vec<Action>)
        requires
            old(self).settings.source == TimeSource::Ethersync,
        ensures
            r@ == old(self).service_actions(discovered, typed, rolling),
            *final(self) == if old(self).browses() {
                App { discovered, ..*old(self) }
            } else if old(self).watches() && rolling is Some {
                App {
                    rolling,
                    pending_roll: old(self).pending_roll || (old(self).rolling != rolling
                        && old(self).stage == Stage::Finalizing && rolling == Some(true)),
                    ..*old(self)
                }
            } else {
                *old(self)
            },
    {
        let (browsing, known): (bool, bool) = match &self.link {
            None => (false, false),
            Some(link) => (link.address.is_none(), link.address.is_some()),
        };
        if browsing {
            self.discovered = discovered;
            if self.find_adoptable(typed).is_some() {
                return just(Action::Adopt);
            }
            return nothing();
        }
        if known && self.slaved() {
            if let Some(now_rolling) = rolling {
                return self.follow_transport(now_rolling);
            }
        }
        nothing()
    }

    /// Whether the leader's addresses are to be looked up now.
    fn check_endpoints(&mut self, now: Instant) -> (r: bool)
        ensures
            r == (old(self).endpoints_due(now) && old(self).link is Some),
            *final(self) == if old(self).endpoints_due(now) {
                App { endpoints_checked: now, ..*old(self) }
            } else {
                *old(self)
            },
    {
        if self.screen == Screen::Settings && self.settings.role == Role::Leader && now.since(
            self.endpoints_checked,
        ) >= ENDPOINTS_EVERY {
            self.endpoints_checked = now;
            return self.link.is_some();
        }
        false
    }

    /// One tick of the window.
    pub fn on_tick(&mut self, t: TickInput) -> (r: Vec<Action>)
        ensures
            final(self).ticked(*old(self), &t),
            r@ == old(self).tick_actions(&t),
    {
        let ghost before = *self;
        if self.take_answer(t.permission) {
            assert(self.ticked(before, &t)) by {
                reveal(App::ticked);
            }
            assert(before.tick_actions(&t) == seq![Action::ListDevices]) by {
                reveal(App::tick_actions);
            }
            return just(Action::ListDevices);
        }
        let mut actions: Vec<Action> = self.keep_up(t.discovered, t.typed, t.rolling, t.now);
        let more: Vec<Action> = match t.finished {
            Some(result) => if self.stage == Stage::Finalizing {
                self.finish_take(result)
            } else {
                nothing()
            },
            None => nothing(),
        };
        assert(self.ticked(before, &t)) by {
            reveal(App::ticked);
        }
        push_all(&mut actions, &more);
        assert(actions@ == before.tick_actions(&t)) by {
            reveal(App::tick_actions);
            assert(actions@ =~= before.tick_actions(&t));
        }
        actions
    }

    /// The part of a tick that recurs: the link, and what is read every time.
    fn keep_up(
        &mut self,
        discovered: Vec<LeaderFound>,
        typed: bool,
        rolling: Option<bool>,
        now: Instant,
    ) -> (r: Vec<Action>)
        ensures
            r@ == old(self).upkeep_actions(discovered, typed, rolling, now) + seq![
                Action::ReadStatus,
                Action::ReadLevels,
                Action::DrainMonitor,
            ],
            *final(self) == (App {
                discovered: if old(self).settings.source == TimeSource::Ethersync
                    && old(self).browses() {
                    discovered
                } else {
                    old(self).discovered
                },
                rolling: old(self).rolling_after(rolling),
                pending_roll: old(self).roll_owed(rolling),
                endpoints_checked: if old(self).settings.source == TimeSource::Ethersync
                    && old(self).endpoints_due(now) {
                    now
                } else {
                    old(self).endpoints_checked
                },
                ..*old(self)
            }),
    {
        let mut actions: Vec<Action> = nothing();
        if self.settings.source == TimeSource::Ethersync {
            actions = self.service_link(discovered, typed, rolling);
            if self.check_endpoints(now) {
                actions.push(Action::ListEndpoints);
            }
        }
        assert(actions@ =~= old(self).upkeep_actions(discovered, typed, rolling, now));
        actions.push(Action::ReadStatus);
        actions.push(Action::ReadLevels);
        actions.push(Action::DrainMonitor);
        assert(actions@ =~= old(self).upkeep_actions(discovered, typed, rolling, now) + seq![
            Action::ReadStatus,
            Action::ReadLevels,
            Action::DrainMonitor,
        ]);
        actions
    }

    fn reopen_monitor(&mut self) -> (r: Vec<Action>)
        ensures
            *final(self) == (App { monitor: None, ..*old(self) }),
            r@ == monitor_actions(old(self).selected),
    {
        self.monitor = None;
        let mut actions: Vec<Action> = just(Action::CloseMonitor);
        if self.selected.is_some() {
            actions.push(Action::OpenMonitor);
        }
        assert(actions@ =~= monitor_actions(old(self).selected));
        actions
    }

    /// The input devices were listed, or could not be. The current choice is kept if it is
    /// still plugged in; else the first device is taken.
    pub fn devices_listed(&mut self, result: Result<Vec<DeviceChoice>, String>) -> (r: Vec<Action>)
        ensures
            (match result {
                Err(e) => *final(self) == (App { error: Some(e), ..*old(self) })
                    && r@.len() == 0,
                Ok(devices) => if old(self).selected is Some && is_listed(
                    devices@,
                    old(self).selected->0.id@,
                ) {
                    *final(self) == (App { devices, ..*old(self) }) && r@.len() == 0
                } else if devices@.len() == 0 {
                    if old(self).selected is None {
                        *final(self) == (App { devices, ..*old(self) }) && r@.len() == 0
                    } else {
                        *final(self) == (App {
                            devices,
                            selected: None,
                            monitor: None,
                            ..*old(self)
                        }) && r@ == monitor_actions(None)
                    }
                } else {
                    &&& *final(self) == (App {
                        devices,
                        selected: final(self).selected,
                        monitor: None,
                        ..*old(self)
                    })
                    &&& final(self).selected is Some
                    &&& same_device(final(self).selected->0, devices@[0])
                    &&& r@ == monitor_actions(final(self).selected)
                },
            }),
    {
        match result {
            Err(e) => {
                self.error = Some(e);
                nothing()
            },
            Ok(devices) => {
                let keep: bool = match &self.selected {
                    Some(s) => lists(&devices, s.id.as_str()),
                    None => false,
                };
                if keep {
                    self.devices = devices;
                    return nothing();
                }
                if devices.len() == 0 {
                    self.devices = devices;
                    if self.selected.is_none() {
                        return nothing();
                    }
                    self.selected = None;
                    return self.reopen_monitor();
                }
                let first: &DeviceChoice = &devices[0];
                let pick = DeviceChoice {
                    id: first.id.clone(),
                    name: first.name.clone(),
                    is_default: first.is_default,
                };
                self.devices = devices;
                self.selected = Some(pick);
                self.reopen_monitor()
            },
        }
    }

    /// The monitoring stream was opened, or was not; `denied` says that the system blocked the
    /// microphone, which on some platforms only shows up here.
    pub fn monitor_opened(&mut self, result: Result<Monitor, String>, denied: bool)
        ensures
            *final(self) == (match result {
                Ok(monitor) => App { monitor: Some(monitor), error: None, ..*old(self) },
                Err(e) => App {
                    error: Some(e),
                    permission: if denied {
                        PermissionStatus::Denied
                    } else {
                        old(self).permission
                    },
                    ..*old(self)
                },
            }),
    {
        match result {
            Ok(monitor) => {
                self.monitor = Some(monitor);
                self.error = None;
            },
            Err(e) => {
                if denied {
                    self.permission = PermissionStatus::Denied;
                }
                self.error = Some(e);
            },
        }
    }

    /// The prompt was opened, or could not be.
    pub fn permission_asked(&mut self, result: Result<(), String>)
        ensures
            *final(self) == (match result {
                Ok(_) => App { asking: true, ..*old(self) },
                Err(e) => App { error: Some(e), ..*old(self) },
            }),
    {
        match result {
            Ok(_) => {
                self.asking = true;
            },
            Err(e) => {
                self.error = Some(e);
            },
        }
    }

    /// Something that has nothing to say but what went wrong.
    pub fn reported(&mut self, result: Result<(), String>)
        ensures
            *final(self) == (match result {
                Ok(_) => *old(self),
                Err(e) => App { error: Some(e), ..*old(self) },
            }),
    {
        if let Err(e) = result {
            self.error = Some(e);
        }
    }

    /// The settings were saved, or could not be.
    pub fn settings_saved(&mut self, result: Result<(), String>)
        ensures
            (match result {
                Ok(_) => *final(self) == *old(self),
                Err(e) => *final(self) == (App { error: final(self).error, ..*old(self) })
                    && final(self).error is Some && final(self).error->0@
                    == "could not save settings: "@ + e@,
            }),
    {
        if let Err(e) = result {
            let mut s: String = String::from_str("could not save settings: ");
            s.append(e.as_str());
            self.error = Some(s);
        }
    }

    /// The base name to number takes under.
    pub fn base(&self) -> (r: String)
        ensures
            r@ == base_of(self.base_name@),
    {
        let typed: String = trim(self.base_name.as_str());
        if typed.as_str().unicode_len() == 0 {
            String::from_str("rec")
        } else {
            typed
        }
    }

    /// Shows the name of the take that comes next, given its number.
    pub fn refresh_preview(&mut self, n: u32)
        ensures
            *final(self) == (App { next_preview: final(self).next_preview, ..*old(self) }),
            final(self).next_preview@ == take::name_in(
                writer::joined(
                    old(self).output_dir@,
                    writer::take_name(base_of(old(self).base_name@), n as nat, ".wav"@),
                ),
            ),
    {
        let base: String = self.base();
        let paths: TakePaths = take_paths(self.output_dir.as_str(), base.as_str(), n);
        self.next_preview = file_name(paths.final_wav.as_str());
    }

    /// Whose levels to show: the take's own capture while recording, the monitoring stream
    /// else.
    pub fn level_source(&self) -> (r: LevelSource)
        ensures
            r == if self.stage == Stage::Recording {
                LevelSource::Take
            } else if self.monitor is Some {
                LevelSource::Monitor
            } else {
                LevelSource::Nobody
            },
    {
        if self.stage == Stage::Recording {
            LevelSource::Take
        } else if self.monitor.is_some() {
            LevelSource::Monitor
        } else {
            LevelSource::Nobody
        }
    }

    /// The levels were read.
    pub fn levels_read(&mut self, peaks: Vec<F32>, rms: Vec<F32>, clips: Vec<bool>)
        ensures
            *final(self) == (App { peaks, rms, clips, ..*old(self) }),
    {
        self.peaks = peaks;
        self.rms = rms;
        self.clips = clips;
    }

    pub open spec fn toggle_actions(&self) -> Seq<Action> {
        match self.stage {
            Stage::Idle => if self.leads() {
                seq![Action::Roll]
            } else {
                seq![Action::StartTake]
            },
            Stage::Recording => if self.leads() {
                seq![Action::StopTake, Action::Halt]
            } else {
                seq![Action::StopTake]
            },
            Stage::Finalizing => Seq::empty(),
        }
    }

    /// The record button, which on a leader is the whole rig's record button.
    ///
    /// The transport rolls *before* the stream opens: the timeline has to be running when the
    /// first sample lands, or sample zero resolves against a paused clock. It halts *after*
    /// the take has stopped and drained, because the writer resolves its last marks during the
    /// drain.
    pub fn toggle_record(&self) -> (r: Vec<Action>)
        ensures
            r@ == self.toggle_actions(),
    {
        match self.stage {
            Stage::Idle => if self.leading() {
                just(Action::Roll)
            } else {
                just(Action::StartTake)
            },
            Stage::Recording => {
                let mut actions: Vec<Action> = just(Action::StopTake);
                if self.leading() {
                    actions.push(Action::Halt);
                }
                assert(actions@ =~= self.toggle_actions());
                actions
            },
            Stage::Finalizing => nothing(),
        }
    }

    /// The transport rolled, and the take begins; or it did not, and nothing does.
    pub fn rolled(&mut self, result: Result<(), String>) -> (r: Vec<Action>)
        ensures
            (match result {
                Ok(_) => *final(self) == *old(self) && r@ == seq![
                    Action::StartTake,
                    Action::HaltUnlessRecording,
                ],
                Err(e) => *final(self) == (App { error: Some(e), ..*old(self) }) && r@.len() == 0,
            }),
    {
        match result {
            Ok(_) => {
                let mut actions: Vec<Action> = just(Action::StartTake);
                actions.push(Action::HaltUnlessRecording);
                assert(actions@ =~= seq![Action::StartTake, Action::HaltUnlessRecording]);
                actions
            },
            Err(e) => {
                self.error = Some(e);
                nothing()
            },
        }
    }

    /// Whether the rig has to be put back where it was, because the take that it rolled for
    /// did not begin here.
    pub fn halt_due(&self) -> (r: bool)
        ensures
            r == (self.leads() && self.stage != Stage::Recording),
    {
        self.leading() && self.stage != Stage::Recording
    }

    /// Whether a take can be attempted at all: there has to be a device.
    pub fn start_recording(&mut self) -> (r: bool)
        ensures
            r == (old(self).selected is Some),
            r ==> *final(self) == *old(self),
            !r ==> *final(self) == (App { error: final(self).error, ..*old(self) })
                && final(self).error is Some && final(self).error->0@
                == "no input device selected"@,
    {
        if self.selected.is_none() {
            self.error = Some(String::from_str("no input device selected"));
            return false;
        }
        true
    }

    /// What a take is measured against, or why there is nothing to measure it against.
    pub fn reference_source(&self) -> (r: Result<TimeSource, String>)
        ensures
            (match r {
                Ok(source) => source == self.settings.source && (source == TimeSource::Ethersync
                    ==> self.link is Some),
                Err(e) => self.settings.source == TimeSource::Ethersync && self.link is None && e@
                    == "no ethersync link"@,
            }),
    {
        match self.settings.source {
            TimeSource::Ntp => Ok(TimeSource::Ntp),
            TimeSource::Ethersync => if self.link.is_some() {
                Ok(TimeSource::Ethersync)
            } else {
                Err(String::from_str("no ethersync link"))
            },
        }
    }

    /// The monitoring stream was closed to make room for the take's own: a take opens a brand
    /// new stream, so that sample zero of the file is the stream's first captured frame.
    pub fn monitor_closed(&mut self)
        ensures
            *final(self) == (App { monitor: None, ..*old(self) }),
    {
        self.monitor = None;
    }

    /// The take did not begin.
    pub fn take_failed(&mut self, failure: TakeFailure) -> (r: Vec<Action>)
        ensures
            (match failure {
                TakeFailure::Folder(e) => *final(self) == (App {
                    error: final(self).error,
                    ..*old(self)
                }) && final(self).error is Some && final(self).error->0@ == "cannot create "@
                    + old(self).output_dir@ + ": "@ + e@ && r@.len() == 0,
                TakeFailure::Reference(e) => *final(self) == (App { error: Some(e), ..*old(self) })
                    && r@.len() == 0,
                TakeFailure::Stream(e) => *final(self) == (App {
                    error: Some(e),
                    monitor: None,
                    ..*old(self)
                }) && r@ == monitor_actions(old(self).selected),
            }),
    {
        match failure {
            TakeFailure::Folder(e) => {
                let mut s: String = String::from_str("cannot create ");
                s.append(self.output_dir.as_str());
                s.append(": ");
                s.append(e.as_str());
                self.error = Some(s);
                nothing()
            },
            TakeFailure::Reference(e) => {
                self.error = Some(e);
                nothing()
            },
            TakeFailure::Stream(e) => {
                self.error = Some(e);
                self.reopen_monitor()
            },
        }
    }

    /// The take is running.
    pub fn take_started(&mut self, paths: TakePaths)
        ensures
            *final(self) == (App {
                take: Some(paths),
                last_result: None,
                error: None,
                stage: Stage::Recording,
                ..*old(self)
            }),
    {
        self.take = Some(paths);
        self.last_result = None;
        self.error = None;
        self.stage = Stage::Recording;
    }

    /// Whether there is a take to stop. The window is idle until it has stopped.
    pub fn stop_recording(&mut self) -> (r: bool)
        ensures
            r == (old(self).stage == Stage::Recording),
            *final(self) == (App { stage: Stage::Idle, ..*old(self) }),
    {
        let recording: bool = self.stage == Stage::Recording;
        self.stage = Stage::Idle;
        recording
    }

    /// The take has stopped and is being finalised; or it could not be stopped in order.
    pub fn take_stopped(&mut self, result: Result<(), String>) -> (r: Vec<Action>)
        ensures
            *final(self) == (match result {
                Ok(_) => App { stage: Stage::Finalizing, monitor: None, ..*old(self) },
                Err(e) => App { error: Some(e), monitor: None, ..*old(self) },
            }),
            r@ == monitor_actions(old(self).selected),
    {
        match result {
            Ok(_) => {
                self.stage = Stage::Finalizing;
            },
            Err(e) => {
                self.error = Some(e);
            },
        }
        self.reopen_monitor()
    }

    /// What a message calls for, but for a tick.
    pub open spec fn message_actions(&self, m: Message) -> Seq<Action> {
        let save = seq![Action::SaveSettings];
        match m {
            Message::Tick(t) => self.tick_actions(&t),
            Message::RefreshDevices => seq![Action::ListDevices],
            Message::DeviceSelected(d) => monitor_actions(Some(d)),
            Message::BrowseDir => seq![Action::PickFolder],
            Message::DirPicked(Some(_)) => seq![Action::Preview],
            Message::DirPicked(None) => Seq::empty(),
            Message::BaseNameChanged(_) => seq![Action::Preview],
            Message::ToggleRecord => self.toggle_actions(),
            Message::RequestPermission => seq![Action::AskPermission],
            Message::OpenPrivacySettings => seq![Action::OpenPrivacySettings],
            Message::ClearClip => if self.monitor is Some {
                seq![Action::ClearClip]
            } else {
                Seq::empty()
            },
            Message::ShowSettings => Seq::empty(),
            Message::ShowRecorder => save,
            Message::SourceSelected(source) => if self.settings.source != source {
                source_actions(Settings { source, ..self.settings }) + save
            } else {
                Seq::empty()
            },
            Message::NtpServerChanged(_) => Seq::empty(),
            Message::NtpServerCommitted => clock_actions(self.settings.ntp_server@) + save,
            Message::TrimChanged(_, _) => Seq::empty(),
            Message::RoleSelected(role) => if self.settings.role != role {
                link_actions() + save
            } else {
                Seq::empty()
            },
            Message::FpsSelected(fps) => if self.settings.fps != fps {
                link_actions() + save
            } else {
                Seq::empty()
            },
            Message::DropFrameToggled(_) => link_actions() + save,
            Message::LeaderNameChanged(_) => Seq::empty(),
            Message::LeaderPortChanged(_) => Seq::empty(),
            Message::FollowerAddressChanged(_) => Seq::empty(),
            Message::LinkSettingsCommitted => link_actions() + save,
            Message::UseDiscovered(_) => link_actions() + save,
        }
    }

    /// Another time source is torn down and the chosen one started.
    pub open spec fn source_selected(&self, before: App, source: TimeSource) -> bool {
        if before.settings.source != source {
            self.unlinked(
                App {
                    settings: Settings { source, ..before.settings },
                    pending_roll: false,
                    ..before
                },
            )
        } else {
            *self == before
        }
    }

    /// Drop-frame numbering goes with a rate that does not support it.
    pub open spec fn fps_selected(&self, before: App, fps: Fps) -> bool {
        if before.settings.fps != fps {
            self.unlinked(
                App {
                    settings: Settings {
                        fps,
                        drop_frame: before.settings.drop_frame && fps.drops(),
                        ..before.settings
                    },
                    ..before
                },
            )
        } else {
            *self == before
        }
    }

    /// An empty trim or a lone sign is no trim yet; a text that is no number is not taken.
    pub open spec fn trim_changed(&self, before: App, s: String, number: Option<F64>) -> bool {
        if s@.len() == 0 || s@ == "-"@ {
            *self == (App {
                trim_text: s,
                settings: Settings { trim_ms: F64 { bits: 0 }, ..before.settings },
                ..before
            })
        } else {
            match number {
                Some(v) => *self == (App {
                    trim_text: s,
                    settings: Settings { trim_ms: v, ..before.settings },
                    ..before
                }),
                None => *self == before,
            }
        }
    }

    /// An empty port keeps the last one; a text that is no port is not taken.
    pub open spec fn port_changed(&self, before: App, s: String) -> bool {
        if s@.len() == 0 {
            *self == (App { port_text: s, ..before })
        } else {
            match port_in(s@) {
                Some(port) => *self == (App {
                    port_text: s,
                    settings: Settings { leader_port: port, ..before.settings },
                    ..before
                }),
                None => *self == before,
            }
        }
    }

    /// The window after a message.
    pub open spec fn answers(&self, before: App, m: Message) -> bool {
        match m {
            Message::Tick(t) => self.ticked(before, &t),
            Message::DeviceSelected(d) => *self == (App {
                selected: Some(d),
                monitor: None,
                ..before
            }),
            Message::DirPicked(Some(dir)) => *self == (App { output_dir: dir, ..before }),
            Message::BaseNameChanged(s) => *self == (App { base_name: self.base_name, ..before })
                && self.base_name@ == cleaned(s@),
            Message::ShowSettings => *self == (App { screen: Screen::Settings, ..before }),
            Message::ShowRecorder => *self == (App { screen: Screen::Record, ..before }),
            Message::SourceSelected(source) => self.source_selected(before, source),
            Message::NtpServerChanged(s) => *self == (App {
                settings: Settings { ntp_server: s, ..before.settings },
                ..before
            }),
            Message::TrimChanged(s, number) => self.trim_changed(before, s, number),
            Message::RoleSelected(role) => if before.settings.role != role {
                self.unlinked(
                    App { settings: Settings { role, ..before.settings }, ..before },
                )
            } else {
                *self == before
            },
            Message::FpsSelected(fps) => self.fps_selected(before, fps),
            Message::DropFrameToggled(on) => self.unlinked(
                App { settings: Settings { drop_frame: on, ..before.settings }, ..before },
            ),
            Message::LeaderNameChanged(s) => *self == (App {
                settings: Settings { leader_name: s, ..before.settings },
                ..before
            }),
            Message::LeaderPortChanged(s) => self.port_changed(before, s),
            Message::FollowerAddressChanged(s) => *self == (App {
                settings: Settings { follower_address: s, ..before.settings },
                ..before
            }),
            Message::LinkSettingsCommitted => self.unlinked(before),
            Message::UseDiscovered(address) => self.unlinked(
                App {
                    settings: Settings {
                        follower_address: address,
                        role: Role::Follower,
                        ..before.settings
                    },
                    ..before
                },
            ),
            _ => *self == before,
        }
    }

    /// Takes in a message.
    #[verifier::spinoff_prover]
    #[verifier::rlimit(50)]
    pub fn update(&mut self, message: Message) -> (r: Vec<Action>)
        ensures
            final(self).answers(*old(self), message),
            r@ == old(self).message_actions(message),
    {
        match message {
            Message::Tick(t) => self.on_tick(t),
            Message::RefreshDevices => just(Action::ListDevices),
            Message::DeviceSelected(d) => {
                self.selected = Some(d);
                self.reopen_monitor()
            },
            Message::BrowseDir => just(Action::PickFolder),
            Message::DirPicked(Some(dir)) => {
                self.output_dir = dir;
                just(Action::Preview)
            },
            Message::DirPicked(None) => nothing(),
            Message::BaseNameChanged(s) => {
                self.base_name = clean_name(s.as_str());
                just(Action::Preview)
            },
            Message::ToggleRecord => self.toggle_record(),
            Message::RequestPermission => just(Action::AskPermission),
            Message::OpenPrivacySettings => just(Action::OpenPrivacySettings),
            Message::ClearClip => if self.monitor.is_some() {
                just(Action::ClearClip)
            } else {
                nothing()
            },
            Message::ShowSettings => {
                self.screen = Screen::Settings;
                nothing()
            },
            Message::ShowRecorder => {
                self.screen = Screen::Record;
                just(Action::SaveSettings)
            },
            Message::SourceSelected(source) => self.select_source(source),
            Message::NtpServerChanged(s) => {
                self.settings.ntp_server = s;
                nothing()
            },
            Message::NtpServerCommitted => {
                let mut actions: Vec<Action> = self.restart_clock();
                actions.push(Action::SaveSettings);
                assert(actions@ =~= clock_actions(self.settings.ntp_server@) + seq![
                    Action::SaveSettings,
                ]);
                actions
            },
            Message::TrimChanged(s, number) => {
                self.change_trim(s, number);
                nothing()
            },
            Message::RoleSelected(role) => {
                if self.settings.role == role {
                    return nothing();
                }
                self.settings.role = role;
                self.relink_and_save()
            },
            Message::FpsSelected(fps) => self.select_fps(fps),
            Message::DropFrameToggled(on) => {
                self.settings.drop_frame = on;
                self.relink_and_save()
            },
            Message::LeaderNameChanged(s) => {
                self.settings.leader_name = s;
                nothing()
            },
            Message::LeaderPortChanged(s) => {
                self.change_port(s);
                nothing()
            },
            Message::FollowerAddressChanged(s) => {
                self.settings.follower_address = s;
                nothing()
            },
            Message::LinkSettingsCommitted => self.relink_and_save(),
            Message::UseDiscovered(address) => {
                self.settings.follower_address = address;
                self.settings.role = Role::Follower;
                self.relink_and_save()
            },
        }
    }

    fn select_source(&mut self, source: TimeSource) -> (r: Vec<Action>)
        ensures
            final(self).source_selected(*old(self), source),
            r@ == if old(self).settings.source != source {
                source_actions(Settings { source, ..old(self).settings }) + seq![
                    Action::SaveSettings,
                ]
            } else {
                Seq::empty()
            },
    {
        if self.settings.source == source {
            return nothing();
        }
        self.settings.source = source;
        let mut actions: Vec<Action> = self.apply_time_source();
        actions.push(Action::SaveSettings);
        assert(actions@ =~= source_actions(Settings { source, ..old(self).settings }) + seq![
            Action::SaveSettings,
        ]);
        actions
    }

    fn select_fps(&mut self, fps: Fps) -> (r: Vec<Action>)
        ensures
            final(self).fps_selected(*old(self), fps),
            r@ == if old(self).settings.fps != fps {
                link_actions() + seq![Action::SaveSettings]
            } else {
                Seq::empty()
            },
    {
        if self.settings.fps == fps {
            return nothing();
        }
        self.settings.fps = fps;
        if !fps.supports_drop_frame() {
            self.settings.drop_frame = false;
        }
        self.relink_and_save()
    }

    fn change_trim(&mut self, s: String, number: Option<F64>)
        ensures
            final(self).trim_changed(*old(self), s, number),
    {
        if s.as_str().unicode_len() == 0 || same_text(s.as_str(), "-") {
            self.trim_text = s;
            self.settings.trim_ms = F64 { bits: 0 };
        } else if let Some(v) = number {
            self.trim_text = s;
            self.settings.trim_ms = v;
        }
    }

    fn change_port(&mut self, s: String)
        ensures
            final(self).port_changed(*old(self), s),
    {
        if s.as_str().unicode_len() == 0 {
            self.port_text = s;
        } else if let Some(port) = parse_port(s.as_str()) {
            self.port_text = s;
            self.settings.leader_port = port;
        }
    }

    fn relink_and_save(&mut self) -> (r: Vec<Action>)
        ensures
            final(self).unlinked(*old(self)),
            r@ == link_actions() + seq![Action::SaveSettings],
    {
        let mut actions: Vec<Action> = self.relink();
        actions.push(Action::SaveSettings);
        assert(actions@ =~= link_actions() + seq![Action::SaveSettings]);
        actions
    }
}

/// The same device, text for text.
pub open spec fn same_device(a: DeviceChoice, b: DeviceChoice) -> bool {
    a.id@ == b.id@ && a.name@ == b.name@ && a.is_default == b.is_default
}

/// A roll starts one take: hearing the same transport state again calls for nothing and
/// changes nothing.
pub proof fn law_transport_is_followed_on_its_edges(app: App, rolling: bool)
    ensures
        (App { rolling: Some(rolling), ..app }).transport_actions(rolling).len() == 0,
        app.rolling != Some(rolling) && app.stage == Stage::Idle && rolling ==> app.transport_actions(
            rolling,
        ) == seq![Action::StartTake],
        app.rolling != Some(rolling) && app.stage == Stage::Recording && !rolling
            ==> app.transport_actions(rolling) == seq![Action::StopTake],
{
}

/// A leader that rolls while the last take is still being finalised is not missed: once
/// finalising ends, the take begins if the transport still runs, and it does not if the
/// transport has stopped meanwhile.
pub proof fn law_a_roll_while_finalising_is_owed(
    app: App,
    first: TickInput,
    later: App,
    last: TickInput,
)
    requires
        app.watches(),
        app.stage == Stage::Finalizing,
        app.rolling != Some(true),
        !app.asking,
        first.rolling == Some(true),
        first.finished is None,
        later.ticked(app, &first),
        last.finished is Some,
    ensures
        later.pending_roll,
        later.rolling == Some(true),
        later.stage == Stage::Finalizing,
        last.rolling != Some(false) ==> later.tick_actions(&last).last() == Action::StartTake,
        last.rolling == Some(false) ==> !later.tick_actions(&last).contains(Action::StartTake),
{
    reveal(App::ticked);
    reveal(App::tick_actions);
    let actions = later.tick_actions(&last);
    if last.rolling == Some(false) {
        assert(later.service_actions(last.discovered, last.typed, last.rolling).len() == 0);
        assert(!actions.contains(Action::StartTake)) by {
            assert forall|i: int| 0 <= i < actions.len() implies actions[i] != Action::StartTake by {
            }
        }
    }
}

/// A leader rolls before it records and halts after: the record button of an idle leader only
/// rolls, a roll that fails begins nothing, and a take is stopped before the transport.
pub proof fn law_a_leader_rolls_first_and_halts_last(app: App)
    requires
        app.leads(),
    ensures
        app.stage == Stage::Idle ==> app.toggle_actions() == seq![Action::Roll],
        app.stage == Stage::Recording ==> app.toggle_actions() == seq![
            Action::StopTake,
            Action::Halt,
        ],
{
}

/// The address that is used of a leader is one of its IPv4 addresses where it has any, and none
/// of those stands before it; else it is its first.
pub proof fn law_the_first_ipv4_address_is_used(s: Seq<LeaderAddress>)
    ensures
        preferred(s) is None <==> s.len() == 0,
        preferred(s) is Some ==> {
            let i = preferred(s)->0;
            &&& 0 <= i < s.len()
            &&& s[i].ipv4 ==> forall|j: int| 0 <= j < i ==> !(#[trigger] s[j]).ipv4
            &&& !s[i].ipv4 ==> i == 0 && forall|j: int|
                0 <= j < s.len() ==> !(#[trigger] s[j]).ipv4
        },
{
    lemma_which_is_first(s);
}

proof fn lemma_which_is_first(s: Seq<LeaderAddress>)
    ensures
        (match first_ipv4(s) {
            Some(i) => 0 <= i < s.len() && s[i].ipv4 && forall|j: int|
                0 <= j < i ==> !(#[trigger] s[j]).ipv4,
            None => forall|j: int| 0 <= j < s.len() ==> !(#[trigger] s[j]).ipv4,
        }),
    decreases s.len(),
{
    if s.len() > 0 {
        let rest = s.drop_last();
        lemma_which_is_first(rest);
        assert forall|j: int| 0 <= j < rest.len() implies rest[j] == #[trigger] s[j] by {
        }
    }
}

/// A port that is typed as a number reads as that number, with a plus before it or not, and is
/// refused where there is no such port.
pub proof fn law_a_typed_port_reads_as_its_number(n: nat)
    ensures
        port_in(text::decimal(n)) == if n <= 65_535 {
            Some(n as u16)
        } else {
            None
        },
        port_in("+"@ + text::decimal(n)) == port_in(text::decimal(n)),
{
    reveal_strlit("+");
    text::lemma_decimal_reads_back(n);
    let d = text::decimal(n);
    assert(text::is_digit(d[0]));
    assert(("+"@ + d).skip(1) =~= d);
}

/// What is in two lists together is in one of them.
proof fn lemma_either(a: Seq<Action>, b: Seq<Action>, x: Action)
    ensures
        (a + b).contains(x) <==> a.contains(x) || b.contains(x),
{
    let c = a + b;
    if a.contains(x) {
        let k = choose|k: int| 0 <= k < a.len() && a[k] == x;
        assert(c[k] == x);
    }
    if b.contains(x) {
        let k = choose|k: int| 0 <= k < b.len() && b[k] == x;
        assert(c[a.len() + k] == x);
    }
    if c.contains(x) {
        let k = choose|k: int| 0 <= k < c.len() && c[k] == x;
        if k < a.len() {
            assert(a[k] == x);
        } else {
            assert(b[k - a.len()] == x);
        }
    }
}

/// What looking after the link calls for begins a take only while idle and ends one only while
/// recording.
proof fn lemma_upkeep(app: App, t: TickInput, x: Action)
    requires
        x == Action::StartTake || x == Action::StopTake,
        app.upkeep_actions(t.discovered, t.typed, t.rolling, t.now).contains(x),
    ensures
        x == Action::StartTake ==> app.stage == Stage::Idle,
        x == Action::StopTake ==> app.stage == Stage::Recording,
{
    let service = app.service_actions(t.discovered, t.typed, t.rolling);
    let rest = if app.endpoints_due(t.now) && app.link is Some {
        seq![Action::ListEndpoints]
    } else {
        Seq::empty()
    };
    lemma_either(service, rest, x);
}

/// A tick begins a take only while idle or where finalising has ended, and ends one only while
/// recording.
proof fn lemma_tick(app: App, t: TickInput, x: Action)
    requires
        x == Action::StartTake || x == Action::StopTake,
        app.tick_actions(&t).contains(x),
    ensures
        x == Action::StartTake ==> app.stage == Stage::Idle || app.finishes(&t),
        x == Action::StopTake ==> app.stage == Stage::Recording,
{
    reveal(App::tick_actions);
    if !app.consents(&t) {
        let upkeep = app.upkeep_actions(t.discovered, t.typed, t.rolling, t.now);
        let reading = seq![Action::ReadStatus, Action::ReadLevels, Action::DrainMonitor];
        let monitor = seq![Action::Preview] + monitor_actions(app.selected);
        let owed = if app.roll_owed(t.rolling) && app.rolling_after(t.rolling) == Some(true) {
            seq![Action::StartTake]
        } else {
            Seq::empty()
        };
        let done = if app.finishes(&t) {
            monitor + owed
        } else {
            Seq::empty()
        };
        assert(app.tick_actions(&t) =~= upkeep + reading + done);
        lemma_either(upkeep + reading, done, x);
        lemma_either(upkeep, reading, x);
        lemma_either(monitor, owed, x);
        lemma_either(seq![Action::Preview], monitor_actions(app.selected), x);
        if upkeep.contains(x) {
            lemma_upkeep(app, t, x);
        }
    }
}

/// Whatever the window is told, a take is begun only where none is running: while idle, or as the
/// last one is done being finalised. One is ended only while it is being recorded.
pub proof fn law_takes_do_not_overlap(app: App, m: Message)
    ensures
        app.message_actions(m).contains(Action::StartTake) ==> app.stage == Stage::Idle || (
        app.stage == Stage::Finalizing && m is Tick && m->Tick_0.finished is Some),
        app.message_actions(m).contains(Action::StopTake) ==> app.stage == Stage::Recording,
{
    let actions = app.message_actions(m);
    let save = seq![Action::SaveSettings];
    assert forall|x: Action|
        (x == Action::StartTake || x == Action::StopTake) && #[trigger] actions.contains(x) implies (
    x == Action::StartTake ==> app.stage == Stage::Idle || (app.stage == Stage::Finalizing && m is Tick
        && m->Tick_0.finished is Some)) && (x == Action::StopTake ==> app.stage
        == Stage::Recording) by {
        match m {
            Message::Tick(t) => {
                lemma_tick(app, t, x);
            },
            Message::SourceSelected(source) => {
                let s = Settings { source, ..app.settings };
                let ends = seq![Action::StopPolling, Action::DropLink];
                let start = match s.source {
                    TimeSource::Ntp => clock_actions(s.ntp_server@),
                    TimeSource::Ethersync => link_actions(),
                };
                lemma_either(source_actions(s), save, x);
                lemma_either(ends + start, seq![Action::ReadStatus], x);
                lemma_either(ends, start, x);
            },
            Message::NtpServerCommitted => {
                lemma_either(clock_actions(app.settings.ntp_server@), save, x);
            },
            _ => {
                lemma_either(link_actions(), save, x);
            },
        }
    }
}

/// At most one reference runs. Whatever source is chosen, both are shut down before anything is
/// started; then the time server is polled where that was chosen and one is named, and the link is
/// opened where that was chosen.
pub proof fn law_one_reference_runs_at_a_time(s: Settings)
    ensures
        source_actions(s).len() >= 2,
        source_actions(s)[0] == Action::StopPolling,
        source_actions(s)[1] == Action::DropLink,
        source_actions(s).contains(Action::StartPolling) <==> s.source == TimeSource::Ntp
            && settings::trimmed(s.ntp_server@).len() > 0,
        source_actions(s).contains(Action::OpenLink) <==> s.source == TimeSource::Ethersync,
        source_actions(s).last() == Action::ReadStatus,
{
    let a = source_actions(s);
    match s.source {
        TimeSource::Ntp => {
            if settings::trimmed(s.ntp_server@).len() > 0 {
                assert(a[4] == Action::StartPolling);
            }
        },
        TimeSource::Ethersync => {
            assert(a[3] == Action::OpenLink);
        },
    }
}

/// A leader that was typed in is not overruled by one that was found, and an address that would
/// not connect is not tried again.
pub proof fn law_a_refused_leader_is_left_alone(app: App, typed: bool)
    ensures
        app.adoptable(typed) is Some ==> {
            let i = app.adoptable(typed)->0;
            &&& !typed
            &&& app.discovered@.len() > 0
            &&& 0 <= i < app.discovered@[0].addresses@.len()
            &&& app.refused is Some ==> app.refused->0@ != app.discovered@[0].addresses@[i].text@
        },
        !typed && app.refused is None && app.discovered@.len() > 0
            && app.discovered@[0].addresses@.len() > 0 ==> app.adoptable(typed) is Some,
{
    if app.discovered@.len() > 0 {
        law_the_first_ipv4_address_is_used(app.discovered@[0].addresses@);
    }
}

/// Drop-frame numbering is never left on with a rate that does not have it.
pub proof fn law_drop_frame_goes_with_its_rate(app: App, before: App, fps: Fps)
    requires
        app.fps_selected(before, fps),
        before.settings.drop_frame ==> before.settings.fps.drops(),
    ensures
        app.settings.fps == fps,
        app.settings.drop_frame ==> before.settings.drop_frame && fps.drops(),
        before.settings.drop_frame && fps.drops() ==> app.settings.drop_frame,
{
}

} // verus!
