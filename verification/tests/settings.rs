//! Operator settings.

use syncrec::ethersync::{Fps, Role};
use syncrec::settings::{trim, Settings, TimeSource};

#[test]
fn defaults_record_against_ntp_as_before() {
    let s = Settings::default();
    assert_eq!(s.source, TimeSource::Ntp);
    assert_eq!(s.ntp_server, "pool.ntp.org");
    assert_eq!(f64::from_bits(s.trim_ms.to_bits()), 0.0);
    assert_eq!(s.role, Role::Leader);
    assert_eq!(s.fps, Fps::default());
    assert_eq!(s.leader_port, 4443);
    assert_eq!(TimeSource::default(), TimeSource::Ntp);
}

#[test]
fn an_empty_follower_address_asks_for_discovery() {
    let mut s = Settings::default();
    assert_eq!(s.follower_target(), None);
    s.follower_address = "   ".into();
    assert_eq!(s.follower_target(), None);
    s.follower_address = " 127.0.0.1:4443\t".into();
    assert_eq!(s.follower_target(), Some("127.0.0.1:4443".into()));
}

#[test]
fn an_unparseable_address_is_not_a_crash() {
    let s = Settings {
        follower_address: "this is not an address".into(),
        ..Settings::default()
    };
    // Whether it resolves is for the network to say.
    assert_eq!(s.follower_target(), Some("this is not an address".into()));
}

#[test]
fn trimming_is_what_the_standard_library_calls_trimming() {
    for s in [
        "",
        " ",
        "a",
        "  a b  ",
        "\t\u{a0}x\u{3000}\n",
        "\u{2003}\u{1680}",
        "\u{200b}zero width stays\u{200b}",
        "é ",
    ] {
        assert_eq!(trim(s), s.trim(), "{s:?}");
    }
}

#[test]
fn each_source_says_what_it_buys() {
    assert_eq!(TimeSource::Ntp.label(), "NTP");
    assert_eq!(TimeSource::Ethersync.label(), "Ethersync");
    assert_ne!(TimeSource::Ntp.blurb(), TimeSource::Ethersync.blurb());
    assert!(TimeSource::Ntp.blurb().starts_with("Absolute UTC from a time server."));
    assert_eq!(
        TimeSource::all(),
        vec![TimeSource::Ntp, TimeSource::Ethersync]
    );
}
