//! Microphone permission, reduced to one shape the window can reason about.
//!
//! The platforms disagree about almost everything here. macOS has a four-state
//! authorisation API and will prompt on request; Windows, for an unpackaged desktop app,
//! has no query and no request at all. So there is one honest enum with a `NotDetermined`
//! *and* an `Unknown` state, and each platform says which of them it can distinguish.

use crate::platform::Platform;
use crate::text;
use crate::text::contains;
use vstd::prelude::*;

verus! {

/// Whether the microphone may be opened.
///
/// `NotDetermined` means that asking will produce a prompt. `Unknown` means that the OS
/// will not tell, so the only honest course is to try and see.
#[derive(Clone, Copy, PartialEq, Eq, Structural, Debug)]
pub enum PermissionStatus {
    Granted,
    /// Refused, or refused on the user's behalf by policy. Only Settings can undo it.
    Denied,
    /// Never asked. A request will prompt.
    NotDetermined,
    /// The platform has no way to tell. Attempt capture and infer from the result.
    Unknown,
}

impl PermissionStatus {
    pub open spec fn name(self) -> Seq<char> {
        match self {
            PermissionStatus::Granted => "granted"@,
            PermissionStatus::Denied => "denied"@,
            PermissionStatus::NotDetermined => "not-determined"@,
            PermissionStatus::Unknown => "unknown"@,
        }
    }

    pub fn label(self) -> (r: &'static str)
        ensures
            r@ == self.name(),
    {
        match self {
            PermissionStatus::Granted => "granted",
            PermissionStatus::Denied => "denied",
            PermissionStatus::NotDetermined => "not-determined",
            PermissionStatus::Unknown => "unknown",
        }
    }

    /// Whether opening a stream is worth attempting.
    ///
    /// Everything except an outright denial is: `NotDetermined` because the attempt itself
    /// triggers the prompt on macOS, and `Unknown` because on Windows the attempt *is* the
    /// query.
    pub fn can_attempt_capture(self) -> (r: bool)
        ensures
            r == (self != PermissionStatus::Denied),
    {
        match self {
            PermissionStatus::Denied => false,
            _ => true,
        }
    }

    /// Whether a prompt is available, i.e. whether [`request`] will do anything useful.
    pub fn can_prompt(self) -> (r: bool)
        ensures
            r == (self == PermissionStatus::NotDetermined),
    {
        match self {
            PermissionStatus::NotDetermined => true,
            _ => false,
        }
    }

    /// Whether the only way forward is the user visiting system settings.
    pub fn needs_settings_visit(self) -> (r: bool)
        ensures
            r == (self == PermissionStatus::Denied),
    {
        match self {
            PermissionStatus::Denied => true,
            _ => false,
        }
    }

    pub open spec fn advice_text(self) -> Seq<char> {
        match self {
            PermissionStatus::Granted => "Microphone access is granted."@,
            PermissionStatus::Denied =>
                "Microphone access is blocked. Enable it in system settings, then restart syncrec."@,
            PermissionStatus::NotDetermined =>
                "Microphone access has not been requested yet. Start a recording to be prompted."@,
            PermissionStatus::Unknown =>
                "This system does not report microphone permission in advance; if capture fails, check the microphone privacy setting."@,
        }
    }

    /// What to put in front of the operator.
    pub fn advice(self) -> (r: &'static str)
        ensures
            r@ == self.advice_text(),
    {
        match self {
            PermissionStatus::Granted => "Microphone access is granted.",
            PermissionStatus::Denied =>
                "Microphone access is blocked. Enable it in system settings, then restart syncrec.",
            PermissionStatus::NotDetermined =>
                "Microphone access has not been requested yet. Start a recording to be prompted.",
            PermissionStatus::Unknown =>
                "This system does not report microphone permission in advance; if capture fails, check the microphone privacy setting.",
        }
    }
}

/// What macOS's capture authorisation says.
#[derive(Clone, Copy, PartialEq, Eq, Structural, Debug)]
pub enum Authorization {
    Authorized,
    Denied,
    /// The user may not change the setting: a denial that cannot even be appealed.
    Restricted,
    NotDetermined,
    /// A value that is not known here.
    Other,
}

/// What the current status is, given what macOS answered where it could be asked.
pub open spec fn status_of(platform: Platform, answer: Option<Authorization>) -> PermissionStatus {
    match platform {
        Platform::Windows => PermissionStatus::Unknown,
        // Access is governed by file permissions on the device node there, which needs no
        // permission dialog.
        Platform::Other => PermissionStatus::Granted,
        Platform::MacOs => match answer {
            Some(Authorization::Authorized) => PermissionStatus::Granted,
            Some(Authorization::Denied) => PermissionStatus::Denied,
            Some(Authorization::Restricted) => PermissionStatus::Denied,
            Some(Authorization::NotDetermined) => PermissionStatus::NotDetermined,
            Some(Authorization::Other) => PermissionStatus::Unknown,
            None => PermissionStatus::Unknown,
        },
    }
}

/// Current status, without prompting and without opening a device.
pub fn status(platform: Platform, answer: Option<Authorization>) -> (r: PermissionStatus)
    ensures
        r == status_of(platform, answer),
{
    match platform {
        Platform::Windows => PermissionStatus::Unknown,
        Platform::Other => PermissionStatus::Granted,
        Platform::MacOs => match answer {
            Some(Authorization::Authorized) => PermissionStatus::Granted,
            Some(Authorization::Denied) => PermissionStatus::Denied,
            Some(Authorization::Restricted) => PermissionStatus::Denied,
            Some(Authorization::NotDetermined) => PermissionStatus::NotDetermined,
            Some(Authorization::Other) => PermissionStatus::Unknown,
            None => PermissionStatus::Unknown,
        },
    }
}

/// How a request for access is met.
#[derive(Clone, Copy, PartialEq, Eq, Structural, Debug)]
pub enum RequestPlan {
    /// The answer is known already and is the one answer of the request.
    Answer(PermissionStatus),
    /// The user is prompted, and [`prompt_answer`] gives the one answer of the request.
    Prompt,
}

/// How to meet a request when the status is `current`: only an undecided status is worth a
/// prompt, and everything else is answered at once, so that nobody waits for ever.
pub fn request(current: PermissionStatus) -> (r: RequestPlan)
    ensures
        r == if current == PermissionStatus::NotDetermined {
            RequestPlan::Prompt
        } else {
            RequestPlan::Answer(current)
        },
{
    match current {
        PermissionStatus::NotDetermined => RequestPlan::Prompt,
        other => RequestPlan::Answer(other),
    }
}

/// The answer of a prompt.
pub fn prompt_answer(granted: bool) -> (r: PermissionStatus)
    ensures
        r == if granted {
            PermissionStatus::Granted
        } else {
            PermissionStatus::Denied
        },
{
    if granted {
        PermissionStatus::Granted
    } else {
        PermissionStatus::Denied
    }
}

/// A command that opens a settings page.
#[derive(Clone, Debug)]
pub struct SettingsCommand {
    pub program: String,
    pub args: Vec<String>,
}

/// What opens the system's microphone privacy settings, or why nothing does.
///
/// The escape hatch for [`PermissionStatus::Denied`], which no API can reverse.
pub fn open_settings(platform: Platform) -> (r: Result<SettingsCommand, String>)
    ensures
        (match platform {
            Platform::MacOs => r is Ok && r->Ok_0.program@ == "/usr/bin/open"@ && r->Ok_0.args@.len()
                == 1 && r->Ok_0.args@[0]@
                == "x-apple.systempreferences:com.apple.preference.security?Privacy_Microphone"@,
            Platform::Windows => r is Ok && r->Ok_0.program@ == "cmd"@ && r->Ok_0.args@.len() == 4
                && r->Ok_0.args@[0]@ == "/C"@ && r->Ok_0.args@[1]@ == "start"@
                && r->Ok_0.args@[2]@ == ""@ && r->Ok_0.args@[3]@
                == "ms-settings:privacy-microphone"@,
            Platform::Other => r is Err && r->Err_0@
                == "no microphone privacy settings page is known for this platform"@,
        }),
{
    match platform {
        Platform::MacOs => {
            let mut args: Vec<String> = Vec::new();
            args.push(
                String::from_str(
                    "x-apple.systempreferences:com.apple.preference.security?Privacy_Microphone",
                ),
            );
            Ok(SettingsCommand { program: String::from_str("/usr/bin/open"), args })
        },
        Platform::Windows => {
            let mut args: Vec<String> = Vec::new();
            args.push(String::from_str("/C"));
            args.push(String::from_str("start"));
            args.push(String::from_str(""));
            args.push(String::from_str("ms-settings:privacy-microphone"));
            Ok(SettingsCommand { program: String::from_str("cmd"), args })
        },
        Platform::Other => Err(
            String::from_str("no microphone privacy settings page is known for this platform"),
        ),
    }
}

/// The kinds of failure an audio backend reports, as far as they are told apart.
#[derive(Clone, Copy, PartialEq, Eq, Structural, Debug)]
pub enum ErrorKind {
    PermissionDenied,
    DeviceNotAvailable,
    DeviceBusy,
    UnsupportedConfig,
    BackendError,
    Other,
}

/// Read a permission verdict out of a backend failure.
///
/// On Windows this is the *only* way denial is ever discovered. `None` for every other
/// kind: a missing device or an unsupported rate is not a permission problem and must not
/// be reported as one.
pub fn from_cpal_error(kind: ErrorKind) -> (r: Option<PermissionStatus>)
    ensures
        r == if kind == ErrorKind::PermissionDenied {
            Some(PermissionStatus::Denied)
        } else {
            None
        },
{
    match kind {
        ErrorKind::PermissionDenied => Some(PermissionStatus::Denied),
        _ => None,
    }
}

/// Convenience predicate over [`from_cpal_error`].
pub fn is_permission_denied(kind: ErrorKind) -> (r: bool)
    ensures
        r == (kind == ErrorKind::PermissionDenied),
{
    from_cpal_error(kind) == Some(PermissionStatus::Denied)
}

/// Whether the process looks like it is running from inside a `.app` bundle, given the
/// path of its executable.
///
/// A path heuristic rather than a real bundle lookup, which is all that is needed: the
/// point is to warn a developer running the bare binary that no prompt will appear.
/// Always `false` off macOS.
pub fn macos_appears_bundled(platform: Platform, exe: Option<&str>) -> (r: bool)
    ensures
        r == (platform == Platform::MacOs && exe is Some && text::occurs(
            ".app/Contents/MacOS/"@,
            exe->0@,
        )),
{
    match (platform, exe) {
        (Platform::MacOs, Some(path)) => contains(path, ".app/Contents/MacOS/"),
        _ => false,
    }
}

/// Every state has a label and an advice of its own, and none of them is empty.
pub proof fn law_states_read_apart(a: PermissionStatus, b: PermissionStatus)
    requires
        a != b,
    ensures
        a.name() != b.name(),
        a.advice_text() != b.advice_text(),
        a.name().len() > 0,
        a.advice_text().len() > 0,
{
    reveal_strlit("granted");
    reveal_strlit("denied");
    reveal_strlit("not-determined");
    reveal_strlit("unknown");
    reveal_strlit("Microphone access is granted.");
    reveal_strlit(
        "Microphone access is blocked. Enable it in system settings, then restart syncrec.",
    );
    reveal_strlit(
        "Microphone access has not been requested yet. Start a recording to be prompted.",
    );
    reveal_strlit(
        "This system does not report microphone permission in advance; if capture fails, check the microphone privacy setting.",
    );
    assert(a.name()[0] != b.name()[0]);
    assert(a.advice_text()[18] == b.advice_text()[18] ==> a.advice_text().len()
        != b.advice_text().len());
}

} // verus!
