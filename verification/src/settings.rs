//! Operator settings: the choices that belong to the rig rather than to the take.

use crate::ethersync::{Fps, Role};
use crate::float::F64;
use vstd::prelude::*;

verus! {

/// Where a take's timestamps come from.
#[derive(Clone, Copy, PartialEq, Eq, Structural, Debug)]
pub enum TimeSource {
    /// The recorder's own SNTP client, fitted against the monotonic clock.
    Ntp,
    /// A timecode timeline shared with the rest of the rig over the LAN.
    Ethersync,
}

impl Default for TimeSource {
    fn default() -> (r: TimeSource)
        ensures
            r == TimeSource::Ntp,
    {
        TimeSource::Ntp
    }
}

impl TimeSource {
    /// Both sources, in the order that they are offered in.
    pub fn all() -> (r: Vec<TimeSource>)
        ensures
            r@ == seq![TimeSource::Ntp, TimeSource::Ethersync],
    {
        let mut v: Vec<TimeSource> = Vec::new();
        v.push(TimeSource::Ntp);
        v.push(TimeSource::Ethersync);
        assert(v@ =~= seq![TimeSource::Ntp, TimeSource::Ethersync]);
        v
    }

    pub open spec fn name(self) -> Seq<char> {
        match self {
            TimeSource::Ntp => "NTP"@,
            TimeSource::Ethersync => "Ethersync"@,
        }
    }

    pub fn label(self) -> (r: &'static str)
        ensures
            r@ == self.name(),
    {
        match self {
            TimeSource::Ntp => "NTP",
            TimeSource::Ethersync => "Ethersync",
        }
    }

    pub open spec fn blurb_text(self) -> Seq<char> {
        match self {
            TimeSource::Ntp =>
                "Absolute UTC from a time server. Each recorder is independently right, to within its own network path."@,
            TimeSource::Ethersync =>
                "LAN timecode from a leader. Recorders agree with each other exactly, and the leader's transport drives everyone's record button."@,
        }
    }

    /// One line on what choosing this actually buys.
    pub fn blurb(self) -> (r: &'static str)
        ensures
            r@ == self.blurb_text(),
    {
        match self {
            TimeSource::Ntp =>
                "Absolute UTC from a time server. Each recorder is independently right, to within its own network path.",
            TimeSource::Ethersync =>
                "LAN timecode from a leader. Recorders agree with each other exactly, and the leader's transport drives everyone's record button.",
        }
    }
}

/// Everything on the settings page.
#[derive(Clone, Debug)]
pub struct Settings {
    pub source: TimeSource,
    /// The NTP server to poll. Only consulted for [`TimeSource::Ntp`].
    pub ntp_server: String,
    /// Input latency still to remove beyond the platform figure, in milliseconds. Signed.
    pub trim_ms: F64,
    pub role: Role,
    pub fps: Fps,
    pub drop_frame: bool,
    /// How this machine advertises itself when it is the leader.
    pub leader_name: String,
    pub leader_port: u16,
    /// `host:port` of the leader to follow. Blank means take the first leader discovered on
    /// the LAN, which is the right answer on a rig with one.
    pub follower_address: String,
}

impl Default for Settings {
    fn default() -> (r: Settings)
        ensures
            r.source == TimeSource::Ntp,
            r.ntp_server@ == "pool.ntp.org"@,
            r.trim_ms == (F64 { bits: 0 }),
            r.role == Role::Leader,
            r.fps == Fps::F25,
            !r.drop_frame,
            r.leader_name@ == "syncrec"@,
            r.leader_port == 4443,
            r.follower_address@ == ""@,
    {
        Settings {
            source: TimeSource::Ntp,
            ntp_server: String::from_str("pool.ntp.org"),
            trim_ms: F64 { bits: 0 },
            role: Role::Leader,
            fps: Fps::F25,
            drop_frame: false,
            leader_name: String::from_str("syncrec"),
            leader_port: 4443,
            follower_address: String::from_str(""),
        }
    }
}

/// White space, as far as settings are concerned: the characters that ASCII and Unicode
/// count as such.
pub open spec fn is_space(c: char) -> bool {
    let n = c as int;
    ||| 9 <= n <= 13
    ||| n == 32
    ||| n == 0x85
    ||| n == 0xA0
    ||| n == 0x1680
    ||| 0x2000 <= n <= 0x200A
    ||| n == 0x2028
    ||| n == 0x2029
    ||| n == 0x202F
    ||| n == 0x205F
    ||| n == 0x3000
}

fn is_space_char(c: char) -> (r: bool)
    ensures
        r == is_space(c),
{
    let n: u32 = c as u32;
    (9 <= n && n <= 13) || n == 32 || n == 0x85 || n == 0xA0 || n == 0x1680 || (0x2000 <= n && n
        <= 0x200A) || n == 0x2028 || n == 0x2029 || n == 0x202F || n == 0x205F || n == 0x3000
}

/// How much white space a text starts with.
pub open spec fn leading_space(s: Seq<char>) -> nat
    decreases s.len(),
{
    if s.len() == 0 || !is_space(s[0]) {
        0
    } else {
        1 + leading_space(s.skip(1))
    }
}

/// Where a text ends once the white space behind it is left off.
pub open spec fn end_of_text(s: Seq<char>) -> nat
    decreases s.len(),
{
    if s.len() == 0 {
        0
    } else if is_space(s.last()) {
        end_of_text(s.drop_last())
    } else {
        s.len()
    }
}

/// A text without the white space around it.
pub open spec fn trimmed(s: Seq<char>) -> Seq<char> {
    let a = leading_space(s) as int;
    let b = end_of_text(s) as int;
    if a < b {
        s.subrange(a, b)
    } else {
        Seq::empty()
    }
}

/// A text without the white space around it.
pub fn trim(s: &str) -> (r: String)
    ensures
        r@ == trimmed(s@),
{
    let n: usize = s.unicode_len();
    let mut a: usize = 0;
    assert(s@.skip(0) =~= s@);
    while a < n && is_space_char(s.get_char(a))
        invariant
            n == s@.len(),
            a <= n,
            leading_space(s@) == a + leading_space(s@.skip(a as int)),
        ensures
            a == leading_space(s@),
            a <= n,
        decreases n - a,
    {
        assert(s@.skip(a as int)[0] == s@[a as int]);
        assert(s@.skip(a as int).skip(1) =~= s@.skip(a + 1));
        a = a + 1;
    }
    let mut b: usize = n;
    assert(s@.take(n as int) =~= s@);
    while b > 0 && is_space_char(s.get_char(b - 1))
        invariant
            n == s@.len(),
            b <= n,
            end_of_text(s@) == end_of_text(s@.take(b as int)),
        ensures
            b == end_of_text(s@),
            b <= n,
        decreases b,
    {
        assert(s@.take(b as int).last() == s@[b - 1]);
        assert(s@.take(b as int).drop_last() =~= s@.take(b - 1));
        b = b - 1;
    }
    if a < b {
        crate::text::cut(s, a, b)
    } else {
        let r: String = String::new();
        assert(r@ =~= Seq::<char>::empty());
        r
    }
}

impl Settings {
    /// The address to look up, when one has been typed. `None` asks for discovery.
    pub fn follower_target(&self) -> (r: Option<String>)
        ensures
            r is None <==> trimmed(self.follower_address@).len() == 0,
            r is Some ==> r->0@ == trimmed(self.follower_address@),
    {
        let text: String = trim(self.follower_address.as_str());
        if text.as_str().unicode_len() == 0 {
            None
        } else {
            Some(text)
        }
    }
}

/// The white space that a text starts and ends with is white space, and no more of it follows.
proof fn lemma_ends(s: Seq<char>)
    ensures
        leading_space(s) <= s.len(),
        forall|i: int| 0 <= i < leading_space(s) ==> is_space(#[trigger] s[i]),
        leading_space(s) < s.len() ==> !is_space(s[leading_space(s) as int]),
        end_of_text(s) <= s.len(),
        forall|i: int| end_of_text(s) <= i < s.len() ==> is_space(#[trigger] s[i]),
        end_of_text(s) > 0 ==> !is_space(s[end_of_text(s) - 1]),
    decreases s.len(),
{
    if s.len() > 0 {
        lemma_ends(s.skip(1));
        lemma_ends(s.drop_last());
        assert forall|i: int| 0 <= i < leading_space(s) implies is_space(#[trigger] s[i]) by {
            if i > 0 {
                assert(s.skip(1)[i - 1] == s[i]);
            }
        }
        assert forall|i: int| end_of_text(s) <= i < s.len() implies is_space(#[trigger] s[i]) by {
            if i < s.len() - 1 {
                assert(s.drop_last()[i] == s[i]);
            }
        }
    }
}

/// Trimming takes off white space and nothing else, and all of it that stands at either end.
pub proof fn law_trimming_takes_off_the_space_around_a_text(s: Seq<char>)
    ensures
        exists|before: Seq<char>, behind: Seq<char>|
            {
                &&& s == #[trigger] (before + trimmed(s) + behind)
                &&& forall|i: int| 0 <= i < before.len() ==> is_space(#[trigger] before[i])
                &&& forall|i: int| 0 <= i < behind.len() ==> is_space(#[trigger] behind[i])
            },
        trimmed(s).len() > 0 ==> !is_space(trimmed(s)[0]) && !is_space(trimmed(s).last()),
{
    lemma_ends(s);
    let a = leading_space(s) as int;
    let b = end_of_text(s) as int;
    if a < b {
        assert(s =~= s.take(a) + trimmed(s) + s.skip(b));
    } else {
        let none = Seq::<char>::empty();
        assert(s =~= s + trimmed(s) + none);
        assert forall|i: int| 0 <= i < s.len() implies is_space(#[trigger] s[i]) by {
            if i >= a {
                assert(i >= b);
            }
        }
    }
}

} // verus!
