//! Devices and stream configuration.

pub mod capture;
pub mod loudness;
pub mod meters;
pub mod ring;
pub mod session;
pub mod writer;

use crate::float::F64;
use crate::order;
use vstd::prelude::*;

verus! {

/// What a take ends up at, always. If the device cannot give this rate, the conversion is
/// folded into the same resample pass that corrects drift.
pub const TARGET_RATE: u32 = 48_000;

/// A device as shown in the picker.
///
/// Carries the backend's identifier rather than just the name: two interfaces can report
/// the same name.
#[derive(Clone, Debug)]
pub struct DeviceChoice {
    pub id: String,
    pub name: String,
    pub is_default: bool,
}

impl DeviceChoice {
    pub fn to_text(&self) -> (r: String)
        ensures
            r@ == if self.is_default {
                self.name@ + " (default)"@
            } else {
                self.name@
            },
    {
        let mut s: String = self.name.clone();
        if self.is_default {
            s.append(" (default)");
        }
        s
    }
}

/// Whether a text comes before another, character by character.
pub open spec fn text_before(a: Seq<char>, b: Seq<char>) -> bool
    decreases a.len(),
{
    if b.len() == 0 {
        false
    } else if a.len() == 0 {
        true
    } else if a[0] != b[0] {
        (a[0] as int) < (b[0] as int)
    } else {
        text_before(a.skip(1), b.skip(1))
    }
}

/// The order of the picker: the default first, then alphabetical.
pub open spec fn listed_before(a: DeviceChoice, b: DeviceChoice) -> bool {
    ||| a.is_default && !b.is_default
    ||| a.is_default == b.is_default && text_before(a.name@, b.name@)
}

fn precedes_text(a: &str, b: &str, from: usize) -> (r: bool)
    requires
        from <= a@.len(),
        from <= b@.len(),
    ensures
        r == text_before(a@.skip(from as int), b@.skip(from as int)),
    decreases a@.len() - from,
{
    let na: usize = a.unicode_len();
    let nb: usize = b.unicode_len();
    if from == nb {
        return false;
    }
    if from == na {
        return true;
    }
    let ca: char = a.get_char(from);
    let cb: char = b.get_char(from);
    assert(a@.skip(from as int)[0] == ca && b@.skip(from as int)[0] == cb);
    if ca != cb {
        return (ca as u32) < (cb as u32);
    }
    assert(a@.skip(from as int).skip(1) =~= a@.skip(from + 1));
    assert(b@.skip(from as int).skip(1) =~= b@.skip(from + 1));
    precedes_text(a, b, from + 1)
}

fn precedes(a: &DeviceChoice, b: &DeviceChoice) -> (r: bool)
    ensures
        r == listed_before(*a, *b),
{
    assert(a.name@.skip(0) =~= a.name@);
    assert(b.name@.skip(0) =~= b.name@);
    if a.is_default && !b.is_default {
        return true;
    }
    a.is_default == b.is_default && precedes_text(a.name.as_str(), b.name.as_str(), 0)
}

/// The devices in the order of the picker, so that the list does not reshuffle on refresh.
pub fn sort_devices(devices: Vec<DeviceChoice>) -> (out: Vec<DeviceChoice>)
    ensures
        out@ == order::sorted_by(
            devices@,
            |a: DeviceChoice, b: DeviceChoice| listed_before(a, b),
        ),
{
    let ghost less = |a: DeviceChoice, b: DeviceChoice| listed_before(a, b);
    let ghost all = devices@;
    let mut rest: Vec<DeviceChoice> = devices;
    let mut taken: Vec<DeviceChoice> = Vec::new();
    // Move everything over in reverse, so that popping hands the items out in order.
    while rest.len() > 0
        invariant
            rest@ + taken@.reverse() == all,
        decreases rest@.len(),
    {
        let ghost r0 = rest@;
        let ghost t0 = taken@;
        let last: Option<DeviceChoice> = rest.pop();
        if let Some(d) = last {
            taken.push(d);
            assert(rest@ + taken@.reverse() =~= r0 + t0.reverse());
        }
    }
    assert(taken@.reverse() =~= all);
    let mut out: Vec<DeviceChoice> = Vec::new();
    let ghost mut done: int = 0;
    while taken.len() > 0
        invariant
            0 <= done <= all.len(),
            taken@.len() == all.len() - done,
            taken@.reverse() == all.skip(done),
            less == (|a: DeviceChoice, b: DeviceChoice| listed_before(a, b)),
            out@ == order::sorted_by(all.take(done), less),
        decreases taken@.len(),
    {
        let ghost t0 = taken@;
        let next: Option<DeviceChoice> = taken.pop();
        if let Some(d) = next {
            assert(d == t0.reverse()[0]);
            assert(d == all[done]);
            let mut k: usize = out.len();
            proof {
                order::lemma_slot(out@, d, less);
                assert(out@.take(out@.len() as int) =~= out@);
            }
            while k > 0 && precedes(&d, &out[k - 1])
                invariant
                    k <= out@.len(),
                    less == (|a: DeviceChoice, b: DeviceChoice| listed_before(a, b)),
                    order::slot(out@.take(k as int), d, less) == order::slot(out@, d, less),
                decreases k,
            {
                assert(out@.take(k as int).drop_last() =~= out@.take(k - 1));
                k = k - 1;
            }
            assert(order::slot(out@, d, less) == k);
            out.insert(k, d);
            proof {
                assert(all.take(done + 1).drop_last() =~= all.take(done));
                assert(taken@.reverse() =~= all.skip(done + 1)) by {
                    assert(taken@ =~= t0.drop_last());
                    assert(t0.reverse() == all.skip(done));
                    assert forall|i: int| 0 <= i < taken@.len() implies taken@.reverse()[i]
                        == all.skip(done + 1)[i] by {
                        assert(t0.reverse()[i + 1] == all.skip(done)[i + 1]);
                    }
                }
                done = done + 1;
            }
        }
    }
    assert(all.take(done) =~= all);
    out
}

/// The sample formats that devices offer, as far as they are told apart.
#[derive(Clone, Copy, PartialEq, Eq, Structural, Debug)]
pub enum SampleFormat {
    I8,
    I16,
    I32,
    U8,
    U16,
    SingleFloat,
    DoubleFloat,
    Other,
}

/// A device's default configuration.
#[derive(Clone, Copy, PartialEq, Eq, Structural, Debug)]
pub struct StreamShape {
    pub channels: u16,
    pub format: SampleFormat,
    pub rate: u32,
}

/// A range of rates that a device offers in one shape.
#[derive(Clone, Copy, PartialEq, Eq, Structural, Debug)]
pub struct SupportedRange {
    pub channels: u16,
    pub format: SampleFormat,
    pub min_rate: u32,
    pub max_rate: u32,
}

/// The stream configuration settled on, and what had to be given up to get it.
#[derive(Clone, Copy, PartialEq, Eq, Structural, Debug)]
pub struct Negotiated {
    pub format: SampleFormat,
    pub rate: u32,
    pub channels: u16,
    /// Which of the offered ranges was taken; `None` for the device's default.
    pub range: Option<usize>,
    /// True when the device agreed to run at the target rate, so that no rate conversion is
    /// needed beyond the drift correction.
    pub native_target_rate: bool,
}

impl Negotiated {
    /// Frames per second, for time arithmetic.
    pub fn rate_f64(&self) -> (r: F64)
        ensures
            r == F64::of_int(self.rate as int),
    {
        F64::from_u64(self.rate as u64)
    }
}

/// Formats that the capture path knows how to read.
pub open spec fn is_capturable(f: SampleFormat) -> bool {
    match f {
        SampleFormat::DoubleFloat => false,
        SampleFormat::Other => false,
        _ => true,
    }
}

pub fn supported_capture_format(f: SampleFormat) -> (r: bool)
    ensures
        r == is_capturable(f),
{
    match f {
        SampleFormat::DoubleFloat => false,
        SampleFormat::Other => false,
        _ => true,
    }
}

/// A range that keeps the default's shape and spans the target rate.
pub open spec fn reaches_target(r: SupportedRange, default: StreamShape) -> bool {
    &&& r.channels == default.channels
    &&& r.format == default.format
    &&& r.min_rate <= TARGET_RATE <= r.max_rate
}

/// Ask the device for the target rate; accept its default rate if it refuses.
///
/// Channel count and sample format are taken from the device's own default, which is the
/// configuration it is happiest in. Only the rate is moved. A format that cannot be
/// captured is refused and handed back.
pub fn negotiate(default: StreamShape, ranges: &Vec<SupportedRange>) -> (r: Result<
    Negotiated,
    SampleFormat,
>)
    ensures
        r is Err <==> !is_capturable(default.format),
        r is Err ==> r->Err_0 == default.format,
        r is Ok ==> ({
            let n = r->Ok_0;
            &&& n.format == default.format
            &&& n.channels == default.channels
            &&& n.native_target_rate == (n.rate == TARGET_RATE)
            &&& match n.range {
                Some(k) => {
                    &&& k < ranges@.len()
                    &&& n.rate == TARGET_RATE
                    &&& reaches_target(ranges@[k as int], default)
                    &&& forall|j: int| 0 <= j < k ==> !reaches_target(ranges@[j], default)
                },
                None => {
                    &&& n.rate == default.rate
                    &&& forall|j: int|
                        0 <= j < ranges@.len() ==> !reaches_target(ranges@[j], default)
                },
            }
        }),
{
    if !supported_capture_format(default.format) {
        return Err(default.format);
    }
    let mut i: usize = 0;
    while i < ranges.len()
        invariant
            i <= ranges@.len(),
            is_capturable(default.format),
            forall|j: int| 0 <= j < i ==> !reaches_target(ranges@[j], default),
        decreases ranges@.len() - i,
    {
        let r: SupportedRange = ranges[i];
        if r.channels == default.channels && r.format == default.format && r.min_rate
            <= TARGET_RATE && TARGET_RATE <= r.max_rate {
            return Ok(
                Negotiated {
                    format: default.format,
                    rate: TARGET_RATE,
                    channels: default.channels,
                    range: Some(i),
                    native_target_rate: true,
                },
            );
        }
        i = i + 1;
    }
    Ok(
        Negotiated {
            format: default.format,
            rate: default.rate,
            channels: default.channels,
            range: None,
            native_target_rate: default.rate == TARGET_RATE,
        },
    )
}

/// The picker's order is one that sorting makes sense by.
pub proof fn law_picker_order_is_an_order()
    ensures
        order::is_order(|a: DeviceChoice, b: DeviceChoice| listed_before(a, b)),
{
    assert forall|a: DeviceChoice, b: DeviceChoice| listed_before(a, b) implies !listed_before(
        b,
        a,
    ) by {
        lemma_text_before_asymmetric(a.name@, b.name@);
    }
    assert forall|a: DeviceChoice, b: DeviceChoice, c: DeviceChoice|
        !listed_before(a, b) && !listed_before(b, c) implies !listed_before(a, c) by {
        lemma_text_before_transitive(a.name@, b.name@, c.name@);
    }
}

proof fn lemma_text_before_asymmetric(a: Seq<char>, b: Seq<char>)
    ensures
        text_before(a, b) ==> !text_before(b, a),
    decreases a.len(),
{
    if a.len() > 0 && b.len() > 0 {
        lemma_text_before_asymmetric(a.skip(1), b.skip(1));
    }
}

proof fn lemma_text_before_transitive(a: Seq<char>, b: Seq<char>, c: Seq<char>)
    ensures
        !text_before(a, b) && !text_before(b, c) ==> !text_before(a, c),
    decreases a.len(),
{
    if a.len() > 0 && b.len() > 0 && c.len() > 0 {
        lemma_text_before_transitive(a.skip(1), b.skip(1), c.skip(1));
    }
}

/// A text comes before another where they first differ by a lower character, or where it ends.
proof fn lemma_first_difference(front: Seq<char>, a: Seq<char>, b: Seq<char>)
    ensures
        a.len() > 0 && b.len() > 0 && a[0] != b[0] ==> text_before(front + a, front + b) == ((
        a[0] as int) < (b[0] as int)),
        a.len() == 0 && b.len() > 0 ==> text_before(front + a, front + b) && !text_before(
            front + b,
            front + a,
        ),
        !text_before(front, front),
    decreases front.len(),
{
    if front.len() == 0 {
        assert(front + a =~= a);
        assert(front + b =~= b);
    } else {
        let rest = front.skip(1);
        lemma_first_difference(rest, a, b);
        assert((front + a).skip(1) =~= rest + a);
        assert((front + b).skip(1) =~= rest + b);
    }
}

/// The picker shows the default first, whatever it is called. The others are in the order of the
/// alphabet: where two names first differ, the lower character comes first, and a name comes
/// before the longer ones that begin with it.
pub proof fn law_the_default_comes_first_and_then_the_alphabet(
    a: DeviceChoice,
    b: DeviceChoice,
    front: Seq<char>,
    x: Seq<char>,
    y: Seq<char>,
)
    ensures
        a.is_default && !b.is_default ==> listed_before(a, b) && !listed_before(b, a),
        a.is_default == b.is_default && a.name@ == b.name@ ==> !listed_before(a, b),
        a.is_default == b.is_default && a.name@ == front + x && b.name@ == front + y && x.len() > 0
            && y.len() > 0 && x[0] != y[0] ==> listed_before(a, b) == ((x[0] as int) < (
        y[0] as int)),
        a.is_default == b.is_default && a.name@ == front && b.name@ == front + y && y.len() > 0
            ==> listed_before(a, b) && !listed_before(b, a),
{
    lemma_first_difference(front, x, y);
    lemma_first_difference(front, Seq::empty(), y);
    lemma_first_difference(a.name@, Seq::empty(), y);
    assert(front + Seq::<char>::empty() =~= front);
}

} // verus!
