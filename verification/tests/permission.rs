//! Microphone permission.

use syncrec::permission::{
    from_cpal_error, is_permission_denied, macos_appears_bundled, open_settings, prompt_answer,
    request, status, Authorization, ErrorKind, PermissionStatus, RequestPlan,
};
use syncrec::platform::Platform;

const PLATFORMS: [Platform; 3] = [Platform::MacOs, Platform::Windows, Platform::Other];

const ANSWERS: [Option<Authorization>; 6] = [
    None,
    Some(Authorization::Authorized),
    Some(Authorization::Denied),
    Some(Authorization::Restricted),
    Some(Authorization::NotDetermined),
    Some(Authorization::Other),
];

/// Only an outright denial should stop us trying; the two "we don't know" states
/// must not block capture, since on those platforms the attempt is the query.
#[test]
fn only_denied_blocks_a_capture_attempt() {
    assert!(PermissionStatus::Granted.can_attempt_capture());
    assert!(PermissionStatus::NotDetermined.can_attempt_capture());
    assert!(PermissionStatus::Unknown.can_attempt_capture());
    assert!(!PermissionStatus::Denied.can_attempt_capture());
}

/// A prompt is only ever available before the user has decided. Offering one for
/// `Unknown` would put a button in the UI that provably cannot do anything.
#[test]
fn only_not_determined_can_be_prompted() {
    assert!(PermissionStatus::NotDetermined.can_prompt());
    assert!(!PermissionStatus::Granted.can_prompt());
    assert!(!PermissionStatus::Denied.can_prompt());
    assert!(!PermissionStatus::Unknown.can_prompt());
}

/// Settings is the remedy for denial and for nothing else.
#[test]
fn only_denied_sends_the_user_to_settings() {
    assert!(PermissionStatus::Denied.needs_settings_visit());
    assert!(!PermissionStatus::Granted.needs_settings_visit());
    assert!(!PermissionStatus::NotDetermined.needs_settings_visit());
    assert!(!PermissionStatus::Unknown.needs_settings_visit());
}

/// Every state must have its own label and its own advice, or the UI collapses
/// distinctions the enum exists to preserve.
#[test]
fn every_status_has_a_distinct_label_and_advice() {
    let all = [
        PermissionStatus::Granted,
        PermissionStatus::Denied,
        PermissionStatus::NotDetermined,
        PermissionStatus::Unknown,
    ];
    for (i, a) in all.iter().enumerate() {
        for b in &all[i + 1..] {
            assert_ne!(a.label(), b.label());
            assert_ne!(a.advice(), b.advice());
        }
        assert!(!a.label().is_empty());
        assert!(!a.advice().is_empty());
    }
}

/// A permission failure of the backend is the only thing that maps to `Denied`.
#[test]
fn cpal_permission_denied_maps_to_denied() {
    assert_eq!(
        from_cpal_error(ErrorKind::PermissionDenied),
        Some(PermissionStatus::Denied)
    );
    assert!(is_permission_denied(ErrorKind::PermissionDenied));
}

/// Unrelated failures must not be reported to the user as permission problems:
/// telling someone to visit Settings because their sample rate is unsupported
/// sends them off to fix the wrong thing.
#[test]
fn other_cpal_errors_do_not_map_to_a_permission_verdict() {
    for kind in [
        ErrorKind::DeviceNotAvailable,
        ErrorKind::DeviceBusy,
        ErrorKind::UnsupportedConfig,
        ErrorKind::BackendError,
        ErrorKind::Other,
    ] {
        assert_eq!(
            from_cpal_error(kind),
            None,
            "{kind:?} is not a permission error"
        );
        assert!(!is_permission_denied(kind));
    }
}

/// Whatever the platform, `status` must answer.
#[test]
fn status_query_is_safe_to_call_anywhere() {
    for platform in PLATFORMS {
        for answer in ANSWERS {
            let s = status(platform, answer);
            assert!(!s.label().is_empty());
        }
    }
}

/// A request always produces exactly one answer, even where the platform cannot
/// prompt. A window that waits for an answer must never hang.
#[test]
fn request_always_delivers_exactly_one_answer() {
    for platform in PLATFORMS {
        for answer in ANSWERS {
            let current = status(platform, answer);
            let first = match request(current) {
                RequestPlan::Answer(s) => s,
                RequestPlan::Prompt => {
                    assert!(current.can_prompt(), "only an undecided status is prompted for");
                    prompt_answer(true)
                }
            };
            assert!(!first.label().is_empty());
        }
    }
    assert_eq!(prompt_answer(false), PermissionStatus::Denied);
    assert_eq!(prompt_answer(true), PermissionStatus::Granted);
}

/// The bundle heuristic is macOS-only and must be a flat `false` elsewhere rather
/// than an accidental `true` from a path that happens to contain the substring.
#[test]
fn bundle_heuristic_is_false_off_macos() {
    let path = Some("/Applications/syncrec.app/Contents/MacOS/syncrec");
    assert!(!macos_appears_bundled(Platform::Other, path));
    assert!(!macos_appears_bundled(Platform::Windows, path));
    assert!(macos_appears_bundled(Platform::MacOs, path));
    assert!(!macos_appears_bundled(Platform::MacOs, Some("/usr/local/bin/syncrec")));
    assert!(!macos_appears_bundled(Platform::MacOs, None));
}

#[test]
fn macos_answers_are_read_as_they_are_meant() {
    let on_mac = |a| status(Platform::MacOs, Some(a));
    assert_eq!(on_mac(Authorization::Authorized), PermissionStatus::Granted);
    assert_eq!(on_mac(Authorization::Denied), PermissionStatus::Denied);
    assert_eq!(on_mac(Authorization::Restricted), PermissionStatus::Denied);
    assert_eq!(on_mac(Authorization::NotDetermined), PermissionStatus::NotDetermined);
    assert_eq!(on_mac(Authorization::Other), PermissionStatus::Unknown);
    assert_eq!(status(Platform::Windows, None), PermissionStatus::Unknown);
    assert_eq!(status(Platform::Other, None), PermissionStatus::Granted);
}

#[test]
fn each_platform_opens_its_own_settings_page() {
    let mac = open_settings(Platform::MacOs).unwrap();
    assert_eq!(mac.program, "/usr/bin/open");
    let win = open_settings(Platform::Windows).unwrap();
    assert_eq!(win.args.last().unwrap(), "ms-settings:privacy-microphone");
    assert!(open_settings(Platform::Other).is_err());
}
