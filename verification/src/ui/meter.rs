//! The input level meter: what the operator actually stares at while setting gain.
//!
//! The scale is dBFS, not linear, and spans the floor at the left edge of the track to full
//! scale at the right edge. Peaks are held, then released at a fixed rate: a digital peak
//! lasts a few milliseconds, which nobody notices. The colour zones are about headroom. Bars
//! are horizontal, channels stack downward as rows, and rows are capped in height and
//! top-aligned: the eye reads a bar's *length*.
//!
//! Logarithms are taken by whoever fills in the levels.

use crate::audio::loudness;
use crate::audio::meters;
use crate::audio::meters::{dbfs_to_fraction, to_dbfs, FLOOR_DBFS, UNITY};
use crate::float::accuracy;
use crate::float::bounds;
use crate::float::error::abs;
use crate::float::ops;
use crate::float::ops::Width;
use crate::float::single;
use crate::float::F32;
use crate::text;
use crate::text::{push_decimal, push_fixed};
use crate::time::Instant;
use vstd::arithmetic::div_mod::*;
use vstd::arithmetic::power2::*;
use vstd::prelude::*;

verus! {

/// How long the peak marker sits at its maximum before it starts to fall: a second and a
/// half, as bits.
pub const PEAK_HOLD_SECS: u32 = 0x3FC0_0000;

/// Release rate of the peak marker once the hold expires: twenty decibels per second, as
/// bits.
pub const PEAK_FALL_DB_PER_SEC: u32 = 0x41A0_0000;

/// Top of the green zone, alignment level: minus eighteen, as bits.
pub const CAUTION_DBFS: u32 = 0xC190_0000;

/// Top of the amber zone: minus three, as bits. Above this, inter-sample overshoot means the
/// converter may already be clipping even though no sample has reached full scale.
pub const DANGER_DBFS: u32 = 0xC040_0000;

/// The height one channel row wants: twenty-four, as bits.
pub const ROW_HEIGHT: u32 = 0x41C0_0000;

/// The most height a single row will take: thirty, as bits.
pub const MAX_ROW_HEIGHT: u32 = 0x41F0_0000;

/// A frame longer than this is a stall, not elapsed musical time: half a second, as bits.
pub const MAX_FRAME_SECS: u32 = 0x3F00_0000;

/// Width of the left-hand gutter that carries the channel numbers: twenty-two, as bits.
pub const CHANNEL_LABEL_WIDTH: u32 = 0x41B0_0000;

/// Width of the per-row clip indicator: seven, as bits.
pub const CLIP_STRIP_WIDTH: u32 = 0x40E0_0000;

/// Height of the dB scale strip under the last row: thirteen, as bits.
pub const LABEL_STRIP_HEIGHT: u32 = 0x4150_0000;

/// Breathing room between the strips and the track: three, as bits.
pub const STRIP_GAP: u32 = 0x4040_0000;

/// Vertical gap between channel rows: three, as bits.
pub const ROW_GAP: u32 = 0x4040_0000;

/// Text size for scale and channel labels: ten, as bits.
pub const LABEL_SIZE: u32 = 0x4120_0000;

/// Minimum horizontal gap between two labelled ticks: twenty-six, as bits.
pub const MIN_LABEL_SPACING: u32 = 0x41D0_0000;

/// Thickness of the peak marker: two, as bits.
pub const PEAK_TICK_WIDTH: u32 = 0x4000_0000;

/// One half, as bits.
pub const HALF: u32 = 0x3F00_0000;

/// Two, as the bits of a single.
pub const PAIR: u32 = 0x4000_0000;

/// A thousand million, as the bits of a single.
pub const NANOS_PER_SEC: u32 = 0x4E6E_6B28;

/// Positive infinity, as bits.
pub const BEYOND: u32 = 0x7F80_0000;

/// Gridlines, loudest first. Dense near full scale where gain decisions are made, sparse at
/// the quiet end where the only question is whether there is signal at all.
pub open spec fn ticks() -> Seq<F32> {
    seq![
        F32 { bits: 0 },
        F32 { bits: 0xC0C0_0000 },
        F32 { bits: 0xC140_0000 },
        F32 { bits: 0xC190_0000 },
        F32 { bits: 0xC1C0_0000 },
        F32 { bits: 0xC210_0000 },
        F32 { bits: 0xC240_0000 },
        F32 { bits: 0xC270_0000 },
    ]
}

/// The gridlines: 0, -6, -12, -18, -24, -36, -48 and -60 dBFS.
pub fn ticks_dbfs() -> (r: Vec<F32>)
    ensures
        r@ == ticks(),
{
    let mut v: Vec<F32> = Vec::new();
    v.push(F32 { bits: 0 });
    v.push(F32 { bits: 0xC0C0_0000 });
    v.push(F32 { bits: 0xC140_0000 });
    v.push(F32 { bits: 0xC190_0000 });
    v.push(F32 { bits: 0xC1C0_0000 });
    v.push(F32 { bits: 0xC210_0000 });
    v.push(F32 { bits: 0xC240_0000 });
    v.push(F32 { bits: 0xC270_0000 });
    assert(v@ =~= ticks());
    v
}

/// One frame's worth of levels, by channel.
///
/// Read defensively: the sequences can disagree in length for a frame while the device is
/// being reconfigured, and what is missing reads as silence that has not clipped.
#[derive(Clone, Debug)]
pub struct MeterData {
    /// Peak magnitude, linear.
    pub peak: Vec<F32>,
    /// RMS magnitude, linear.
    pub rms: Vec<F32>,
    /// Latching clip flags.
    pub clipped: Vec<bool>,
    /// Decimal logarithms of the peaks.
    pub peak_log10: Vec<F32>,
    /// Decimal logarithms of the RMS magnitudes.
    pub rms_log10: Vec<F32>,
}

/// The item at `i`, zero where there is none.
pub open spec fn item(s: Seq<F32>, i: int) -> F32 {
    if 0 <= i < s.len() {
        s[i]
    } else {
        F32 { bits: 0 }
    }
}

fn item_of(v: &Vec<F32>, i: usize) -> (r: F32)
    ensures
        r == item(v@, i as int),
{
    if i < v.len() {
        v[i]
    } else {
        F32 { bits: 0 }
    }
}

impl MeterData {
    pub fn new(
        peak: Vec<F32>,
        rms: Vec<F32>,
        clipped: Vec<bool>,
        peak_log10: Vec<F32>,
        rms_log10: Vec<F32>,
    ) -> (r: MeterData)
        ensures
            r == (MeterData { peak, rms, clipped, peak_log10, rms_log10 }),
    {
        MeterData { peak, rms, clipped, peak_log10, rms_log10 }
    }

    pub open spec fn bars(&self) -> nat {
        if self.peak@.len() >= self.rms@.len() {
            self.peak@.len()
        } else {
            self.rms@.len()
        }
    }

    /// How many bars to draw: the larger of the two level sequences, so that a channel is
    /// never silently dropped because one of them was refilled a frame later.
    pub fn channels(&self) -> (r: usize)
        ensures
            r == self.bars(),
    {
        if self.peak.len() >= self.rms.len() {
            self.peak.len()
        } else {
            self.rms.len()
        }
    }

    pub open spec fn peak_level(&self, ch: int) -> F32 {
        meters::dbfs(item(self.peak@, ch), item(self.peak_log10@, ch))
    }

    pub fn peak_dbfs(&self, ch: usize) -> (r: F32)
        ensures
            r == self.peak_level(ch as int),
    {
        to_dbfs(item_of(&self.peak, ch), item_of(&self.peak_log10, ch))
    }

    pub open spec fn rms_level(&self, ch: int) -> F32 {
        meters::dbfs(item(self.rms@, ch), item(self.rms_log10@, ch))
    }

    pub fn rms_dbfs(&self, ch: usize) -> (r: F32)
        ensures
            r == self.rms_level(ch as int),
    {
        to_dbfs(item_of(&self.rms, ch), item_of(&self.rms_log10, ch))
    }

    pub open spec fn has_clipped(&self, ch: int) -> bool {
        0 <= ch < self.clipped@.len() && self.clipped@[ch]
    }

    pub fn clipped(&self, ch: usize) -> (r: bool)
        ensures
            r == self.has_clipped(ch as int),
    {
        ch < self.clipped.len() && self.clipped[ch]
    }
}

/// The row count that a meter of some channels is sized by.
pub open spec fn rows_for(channels: nat) -> nat {
    if channels == 0 {
        1
    } else {
        channels
    }
}

pub open spec fn height_for(channels: nat) -> F32 {
    let rows = rows_for(channels);
    (F32 { bits: STRIP_GAP }).add_spec(
        F32::of_int(rows as int).mul_spec(F32 { bits: ROW_HEIGHT }),
    ).add_spec(F32::of_int(rows - 1).mul_spec(F32 { bits: ROW_GAP })).add_spec(
        F32 { bits: STRIP_GAP },
    ).add_spec(F32 { bits: LABEL_STRIP_HEIGHT })
}

/// The height the meter wants for `channels` channels, in logical pixels.
///
/// No channels still ask for one row: the panel should not visibly resize when audio arrives.
pub fn preferred_height(channels: usize) -> (r: F32)
    ensures
        r == height_for(channels as nat),
{
    let rows: usize = if channels == 0 { 1 } else { channels };
    (F32 { bits: STRIP_GAP }).add(F32::from_usize(rows).mul(F32 { bits: ROW_HEIGHT })).add(
        F32::from_usize(rows - 1).mul(F32 { bits: ROW_GAP }),
    ).add(F32 { bits: STRIP_GAP }).add(F32 { bits: LABEL_STRIP_HEIGHT })
}

/// An empty meter is sized like a mono one.
pub proof fn law_no_channels_are_sized_like_one()
    ensures
        height_for(0) == height_for(1),
{
}

/// Which colour a level reads as.
#[derive(Clone, Copy, PartialEq, Eq, Structural, Debug)]
pub enum Zone {
    /// Below alignment level. Plenty of headroom.
    Safe,
    /// Into the headroom. Legitimate, but the operator should be watching.
    Caution,
    /// Close enough to full scale that the converter may already be clipping.
    Danger,
}

pub open spec fn zone_of(dbfs: F32) -> Zone {
    if (F32 { bits: DANGER_DBFS }).le_spec(dbfs) {
        Zone::Danger
    } else if (F32 { bits: CAUTION_DBFS }).le_spec(dbfs) {
        Zone::Caution
    } else {
        Zone::Safe
    }
}

/// The zone a dBFS level falls in.
pub fn zone_for(dbfs: F32) -> (r: Zone)
    ensures
        r == zone_of(dbfs),
{
    if (F32 { bits: DANGER_DBFS }).le(dbfs) {
        Zone::Danger
    } else if (F32 { bits: CAUTION_DBFS }).le(dbfs) {
        Zone::Caution
    } else {
        Zone::Safe
    }
}

/// A louder level never reads as a safer zone.
pub proof fn law_zones_grow_with_the_level(quieter: F32, louder: F32)
    requires
        quieter.le_spec(louder),
    ensures
        zone_of(quieter) == Zone::Danger ==> zone_of(louder) == Zone::Danger,
        zone_of(louder) == Zone::Safe ==> zone_of(quieter) == Zone::Safe,
{
}

#[derive(Clone, Copy, PartialEq, Eq, Structural, Debug)]
pub struct Rectangle {
    pub x: F32,
    pub y: F32,
    pub width: F32,
    pub height: F32,
}

#[derive(Clone, Copy, PartialEq, Eq, Structural, Debug)]
pub struct Size {
    pub width: F32,
    pub height: F32,
}

pub open spec fn x_of(dbfs: F32, track: Rectangle) -> F32 {
    track.x.add_spec(track.width.mul_spec(meters::fraction_of(dbfs)))
}

/// The x coordinate, in the track's own space, of a given level. Levels outside the scale
/// clamp to the ends.
pub fn x_for_dbfs(dbfs: F32, track: Rectangle) -> (r: F32)
    ensures
        r == x_of(dbfs, track),
{
    track.x.add(track.width.mul(dbfs_to_fraction(dbfs)))
}

pub open spec fn row_height_of(available: F32, channels: nat) -> F32 {
    let rows = rows_for(channels);
    let total_gap = (F32 { bits: ROW_GAP }).mul_spec(F32::of_int(rows - 1));
    available.sub_spec(total_gap).div_spec(F32::of_int(rows as int)).clamp_spec(
        F32 { bits: UNITY },
        F32 { bits: MAX_ROW_HEIGHT },
    )
}

/// How tall each row is when `channels` of them share `available` height: capped so that
/// surplus height is left empty, and floored at one pixel so that a squeezed row is still a
/// visible line.
pub fn row_height(available: F32, channels: usize) -> (r: F32)
    ensures
        r == row_height_of(available, channels as nat),
{
    let rows: usize = if channels == 0 { 1 } else { channels };
    let total_gap: F32 = (F32 { bits: ROW_GAP }).mul(F32::from_usize(rows - 1));
    available.sub(total_gap).div(F32::from_usize(rows)).clamp(
        F32 { bits: UNITY },
        F32 { bits: MAX_ROW_HEIGHT },
    )
}

/// However much or little height there is, a row is at least a pixel and at most the cap,
/// unless the height is no number.
pub proof fn law_a_row_is_a_bar_not_a_slab(available: F32, channels: nat)
    requires
        !row_height_of(available, channels).is_nan_spec(),
    ensures
        (F32 { bits: UNITY }).le_spec(row_height_of(available, channels)),
        row_height_of(available, channels).le_spec(F32 { bits: MAX_ROW_HEIGHT }),
{
}

/// The row of channel `i`.
pub open spec fn row_at(area: Rectangle, height: F32, i: int) -> Rectangle {
    Rectangle {
        x: area.x,
        y: area.y.add_spec(F32::of_int(i).mul_spec(height.add_spec(F32 { bits: ROW_GAP }))),
        width: area.width,
        height,
    }
}

pub open spec fn rows_of(area: Rectangle, channels: nat) -> Seq<Rectangle> {
    if channels == 0 || area.width.le_spec(F32 { bits: 0 }) || area.height.le_spec(
        F32 { bits: 0 },
    ) {
        Seq::empty()
    } else {
        Seq::new(
            channels,
            |i: int| row_at(area, row_height_of(area.height, channels), i),
        )
    }
}

/// The row rectangles for `channels` bars inside `area`, top-aligned. None for no channels,
/// which is what shows between selecting a device and the stream starting.
pub fn rows(area: Rectangle, channels: usize) -> (r: Vec<Rectangle>)
    ensures
        r@ == rows_of(area, channels as nat),
{
    let mut out: Vec<Rectangle> = Vec::new();
    if channels == 0 || area.width.le(F32 { bits: 0 }) || area.height.le(F32 { bits: 0 }) {
        assert(out@ =~= rows_of(area, channels as nat));
        return out;
    }
    let height: F32 = row_height(area.height, channels);
    let mut i: usize = 0;
    while i < channels
        invariant
            i <= channels,
            height == row_height_of(area.height, channels as nat),
            out@ == Seq::new(
                i as nat,
                |k: int| row_at(area, row_height_of(area.height, channels as nat), k),
            ),
        decreases channels - i,
    {
        out.push(
            Rectangle {
                x: area.x,
                y: area.y.add(F32::from_usize(i).mul(height.add(F32 { bits: ROW_GAP }))),
                width: area.width,
                height,
            },
        );
        i = i + 1;
        assert(out@ =~= Seq::new(
            i as nat,
            |k: int| row_at(area, row_height_of(area.height, channels as nat), k),
        ));
    }
    assert(out@ =~= rows_of(area, channels as nat));
    out
}

/// Where every piece of the meter goes.
#[derive(Clone, Debug)]
pub struct Layout {
    /// The scaled region: background, gridlines and border. Exactly as tall as the rows that
    /// exist.
    pub track: Rectangle,
    /// One rectangle per channel, top to bottom.
    pub rows: Vec<Rectangle>,
    /// Top edge of the dB scale strip, which follows the stack.
    pub labels_y: F32,
}

/// The region that the rows may use.
pub open spec fn area_of(size: Size) -> Rectangle {
    Rectangle {
        x: F32 { bits: CHANNEL_LABEL_WIDTH },
        y: F32 { bits: STRIP_GAP },
        width: size.width.sub_spec(F32 { bits: CHANNEL_LABEL_WIDTH }).sub_spec(
            F32 { bits: STRIP_GAP },
        ).sub_spec(F32 { bits: CLIP_STRIP_WIDTH }).max_spec(F32 { bits: 0 }),
        height: size.height.sub_spec(F32 { bits: STRIP_GAP }).sub_spec(
            F32 { bits: STRIP_GAP },
        ).sub_spec(F32 { bits: LABEL_STRIP_HEIGHT }).max_spec(F32 { bits: 0 }),
    }
}

/// The scaled region. With no channels it is still one row tall: a bordered, scaled, empty
/// meter reads as "no input yet", whereas a blank rectangle reads as broken.
pub open spec fn track_of(size: Size, channels: nat) -> Rectangle {
    let area = area_of(size);
    let rows = rows_of(area, channels);
    let used = if rows.len() == 0 {
        row_height_of(area.height, 0)
    } else {
        rows.last().y.add_spec(rows.last().height).sub_spec(area.y)
    };
    Rectangle { height: used.min_spec(area.height), ..area }
}

pub open spec fn labels_y_of(size: Size, channels: nat) -> F32 {
    let track = track_of(size, channels);
    track.y.add_spec(track.height).add_spec(F32 { bits: STRIP_GAP })
}

pub fn layout(size: Size, channels: usize) -> (r: Layout)
    ensures
        r.track == track_of(size, channels as nat),
        r.rows@ == rows_of(area_of(size), channels as nat),
        r.labels_y == labels_y_of(size, channels as nat),
{
    let area = Rectangle {
        x: F32 { bits: CHANNEL_LABEL_WIDTH },
        y: F32 { bits: STRIP_GAP },
        width: size.width.sub(F32 { bits: CHANNEL_LABEL_WIDTH }).sub(
            F32 { bits: STRIP_GAP },
        ).sub(F32 { bits: CLIP_STRIP_WIDTH }).max(F32 { bits: 0 }),
        height: size.height.sub(F32 { bits: STRIP_GAP }).sub(F32 { bits: STRIP_GAP }).sub(
            F32 { bits: LABEL_STRIP_HEIGHT },
        ).max(F32 { bits: 0 }),
    };
    let stacked: Vec<Rectangle> = rows(area, channels);
    let used: F32 = if stacked.len() == 0 {
        row_height(area.height, 0)
    } else {
        let last: Rectangle = stacked[stacked.len() - 1];
        last.y.add(last.height).sub(area.y)
    };
    let track = Rectangle {
        x: area.x,
        y: area.y,
        width: area.width,
        height: used.min(area.height),
    };
    let labels_y: F32 = track.y.add(track.height).add(F32 { bits: STRIP_GAP });
    Layout { track, rows: stacked, labels_y }
}

/// The ticks among the first of `s` that get a label, and where the last of them stands.
pub open spec fn labelled(s: Seq<F32>, track_width: F32) -> (Seq<F32>, F32)
    decreases s.len(),
{
    if s.len() == 0 {
        (Seq::empty(), F32 { bits: BEYOND })
    } else {
        let (before, last_x) = labelled(s.drop_last(), track_width);
        let x = track_width.mul_spec(meters::fraction_of(s.last()));
        if before.len() == 0 || (F32 { bits: MIN_LABEL_SPACING }).le_spec(last_x.sub_spec(x)) {
            (before.push(s.last()), x)
        } else {
            (before, last_x)
        }
    }
}

/// Which ticks get a text label at a given track width.
///
/// Every tick gets a gridline; only the labels are thinned, and only when they would overlap.
/// Full scale is labelled first and unconditionally because it is the reference every other
/// reading is relative to.
pub fn labelled_ticks(track_width: F32) -> (r: Vec<F32>)
    ensures
        r@ == labelled(ticks(), track_width).0,
{
    let ticks_left: Vec<F32> = ticks_dbfs();
    let mut out: Vec<F32> = Vec::new();
    let mut last_x: F32 = F32 { bits: BEYOND };
    let mut i: usize = 0;
    while i < ticks_left.len()
        invariant
            i <= ticks_left@.len(),
            ticks_left@ == ticks(),
            out@ == labelled(ticks().take(i as int), track_width).0,
            last_x == labelled(ticks().take(i as int), track_width).1,
        decreases ticks_left@.len() - i,
    {
        assert(ticks().take(i + 1).drop_last() =~= ticks().take(i as int));
        assert(ticks().take(i + 1).last() == ticks()[i as int]);
        let db: F32 = ticks_left[i];
        let x: F32 = track_width.mul(dbfs_to_fraction(db));
        if out.len() == 0 || (F32 { bits: MIN_LABEL_SPACING }).le(last_x.sub(x)) {
            out.push(db);
            last_x = x;
        }
        i = i + 1;
    }
    assert(ticks().take(i as int) =~= ticks());
    out
}

proof fn lemma_labelled(s: Seq<F32>, track_width: F32, i: int)
    ensures
        s.len() > 0 ==> labelled(s, track_width).0.len() > 0 && labelled(s, track_width).0[0]
            == s[0],
        labelled(s, track_width).0.len() > 0 ==> labelled(s, track_width).1
            == track_width.mul_spec(meters::fraction_of(labelled(s, track_width).0.last())),
        0 <= i < labelled(s, track_width).0.len() - 1 ==> (F32 {
            bits: MIN_LABEL_SPACING,
        }).le_spec(
            track_width.mul_spec(meters::fraction_of(labelled(s, track_width).0[i])).sub_spec(
                track_width.mul_spec(meters::fraction_of(labelled(s, track_width).0[i + 1])),
            ),
        ),
    decreases s.len(),
{
    if s.len() > 0 {
        let rest = s.drop_last();
        lemma_labelled(rest, track_width, i);
        if rest.len() > 0 {
            assert(rest[0] == s[0]);
        } else {
            assert(s.last() == s[0]);
        }
    }
}

/// Full scale is never the label that is dropped.
pub proof fn law_full_scale_is_always_labelled(track_width: F32)
    ensures
        labelled(ticks(), track_width).0.len() > 0,
        labelled(ticks(), track_width).0[0] == (F32 { bits: 0 }),
{
    lemma_labelled(ticks(), track_width, 0);
}

/// Labels never collide: two neighbours are at least the minimum spacing apart.
pub proof fn law_labels_never_collide(track_width: F32, i: int)
    requires
        0 <= i < labelled(ticks(), track_width).0.len() - 1,
    ensures
        (F32 { bits: MIN_LABEL_SPACING }).le_spec(
            track_width.mul_spec(
                meters::fraction_of(labelled(ticks(), track_width).0[i]),
            ).sub_spec(
                track_width.mul_spec(
                    meters::fraction_of(labelled(ticks(), track_width).0[i + 1]),
                ),
            ),
        ),
{
    lemma_labelled(ticks(), track_width, i);
}

/// One channel's peak marker: where it is and how much dwell it has left.
#[derive(Clone, Copy, PartialEq, Eq, Structural, Debug)]
pub struct Hold {
    pub dbfs: F32,
    pub dwell_secs: F32,
}

impl Hold {
    pub open spec fn idle_spec() -> Hold {
        Hold { dbfs: F32 { bits: FLOOR_DBFS }, dwell_secs: F32 { bits: 0 } }
    }

    /// A marker at the floor.
    pub fn idle() -> (r: Hold)
        ensures
            r == Hold::idle_spec(),
    {
        Hold { dbfs: F32 { bits: FLOOR_DBFS }, dwell_secs: F32 { bits: 0 } }
    }

    pub open spec fn after(self, peak_dbfs: F32, dt: F32) -> Hold {
        if self.dbfs.le_spec(peak_dbfs) {
            Hold { dbfs: peak_dbfs, dwell_secs: F32 { bits: PEAK_HOLD_SECS } }
        } else {
            let falling = dt.sub_spec(self.dwell_secs).max_spec(F32 { bits: 0 });
            Hold {
                dbfs: self.dbfs.sub_spec(
                    falling.mul_spec(F32 { bits: PEAK_FALL_DB_PER_SEC }),
                ).max_spec(peak_dbfs),
                dwell_secs: self.dwell_secs.sub_spec(dt).max_spec(F32 { bits: 0 }),
            }
        }
    }

    /// Advance the marker by `dt` seconds against a freshly measured peak.
    ///
    /// Attack is instantaneous: a meter that eases upward under-reports headroom. A frame is
    /// split at the moment the dwell expires, so that the release rate does not depend on the
    /// frame rate.
    pub fn advance(self, peak_dbfs: F32, dt: F32) -> (r: Hold)
        ensures
            r == self.after(peak_dbfs, dt),
    {
        if self.dbfs.le(peak_dbfs) {
            return Hold { dbfs: peak_dbfs, dwell_secs: F32 { bits: PEAK_HOLD_SECS } };
        }
        let falling: F32 = dt.sub(self.dwell_secs).max(F32 { bits: 0 });
        Hold {
            dbfs: self.dbfs.sub(falling.mul(F32 { bits: PEAK_FALL_DB_PER_SEC })).max(
                peak_dbfs,
            ),
            dwell_secs: self.dwell_secs.sub(dt).max(F32 { bits: 0 }),
        }
    }

    /// Whether the marker still has somewhere to fall.
    pub fn is_active(self) -> (r: bool)
        ensures
            r == (F32 { bits: FLOOR_DBFS }).lt_spec(self.dbfs),
    {
        (F32 { bits: FLOOR_DBFS }).lt(self.dbfs)
    }
}

/// The marker is a maximum: it never falls below the live peak, and a new peak moves it up at
/// once and restarts the dwell.
pub proof fn law_the_marker_is_a_maximum(h: Hold, peak_dbfs: F32, dt: F32)
    requires
        !peak_dbfs.is_nan_spec(),
    ensures
        peak_dbfs.le_spec(h.after(peak_dbfs, dt).dbfs),
        h.dbfs.le_spec(peak_dbfs) ==> h.after(peak_dbfs, dt) == (Hold {
            dbfs: peak_dbfs,
            dwell_secs: F32 { bits: PEAK_HOLD_SECS },
        }),
{
}

/// Everything the meter remembers between frames.
#[derive(Clone, Debug)]
pub struct MeterState {
    pub holds: Vec<Hold>,
    /// The time of the previous redraw.
    pub last_frame: Option<Instant>,
}

impl Default for MeterState {
    fn default() -> (r: MeterState)
        ensures
            r.holds@.len() == 0,
            r.last_frame is None,
    {
        MeterState { holds: Vec::new(), last_frame: None }
    }
}

/// The markers after a frame: channels that were not there start at the floor.
pub open spec fn holds_after(holds: Seq<Hold>, data: MeterData, dt: F32) -> Seq<Hold> {
    Seq::new(
        data.bars(),
        |ch: int|
            (if ch < holds.len() {
                holds[ch]
            } else {
                Hold::idle_spec()
            }).after(data.peak_level(ch), dt),
    )
}

/// The time between two frames, in seconds, capped so that a stall cannot move the marker to
/// the floor.
pub open spec fn frame_secs(last: Option<Instant>, now: Instant) -> F32 {
    match last {
        None => (F32 { bits: 0 }).min_spec(F32 { bits: MAX_FRAME_SECS }),
        Some(prev) => {
            let nanos = if now.nanos >= prev.nanos {
                (now.nanos - prev.nanos) as nat
            } else {
                0
            };
            F32::of_int((nanos / 1_000_000_000) as int).add_spec(
                F32::of_int((nanos % 1_000_000_000) as int).div_spec(
                    F32 { bits: NANOS_PER_SEC },
                ),
            ).min_spec(F32 { bits: MAX_FRAME_SECS })
        },
    }
}

impl MeterState {
    /// Fold one frame's peaks into the held markers.
    pub fn advance(&mut self, data: &MeterData, dt: F32)
        ensures
            final(self).holds@ == holds_after(old(self).holds@, *data, dt),
            final(self).last_frame == old(self).last_frame,
    {
        let n: usize = data.channels();
        let mut out: Vec<Hold> = Vec::new();
        let mut ch: usize = 0;
        while ch < n
            invariant
                ch <= n,
                n == data.bars(),
                self == old(self),
                out@.len() == ch,
                forall|k: int|
                    0 <= k < ch ==> #[trigger] out@[k] == holds_after(old(self).holds@, *data, dt)[k],
            decreases n - ch,
        {
            let before: Hold = if ch < self.holds.len() {
                self.holds[ch]
            } else {
                Hold::idle()
            };
            out.push(before.advance(data.peak_dbfs(ch), dt));
            ch = ch + 1;
        }
        assert(out@ =~= holds_after(old(self).holds@, *data, dt));
        self.holds = out;
    }

    /// Whether any marker still has somewhere to fall. When nothing is moving no frames are
    /// asked for.
    pub fn is_animating(&self) -> (r: bool)
        ensures
            r == exists|ch: int|
                0 <= ch < self.holds@.len() && (F32 { bits: FLOOR_DBFS }).lt_spec(
                    (#[trigger] self.holds@[ch]).dbfs,
                ),
    {
        let mut ch: usize = 0;
        while ch < self.holds.len()
            invariant
                ch <= self.holds@.len(),
                forall|k: int|
                    0 <= k < ch ==> !(F32 { bits: FLOOR_DBFS }).lt_spec(
                        (#[trigger] self.holds@[k]).dbfs,
                    ),
            decreases self.holds@.len() - ch,
        {
            if self.holds[ch].is_active() {
                return true;
            }
            ch = ch + 1;
        }
        false
    }

    pub open spec fn marker(&self, ch: int) -> F32 {
        if 0 <= ch < self.holds@.len() {
            self.holds@[ch].dbfs
        } else {
            F32 { bits: FLOOR_DBFS }
        }
    }

    /// Where a channel's marker is; at the floor for a channel that is not there.
    pub fn hold_dbfs(&self, ch: usize) -> (r: F32)
        ensures
            r == self.marker(ch as int),
    {
        if ch < self.holds.len() {
            self.holds[ch].dbfs
        } else {
            F32 { bits: FLOOR_DBFS }
        }
    }

    /// Takes a redraw at `now`. Answers whether another frame is wanted.
    pub fn update(&mut self, data: &MeterData, now: Instant) -> (again: bool)
        ensures
            final(self).holds@ == holds_after(
                old(self).holds@,
                *data,
                frame_secs(old(self).last_frame, now),
            ),
            final(self).last_frame == Some(now),
            again == exists|ch: int|
                0 <= ch < final(self).holds@.len() && (F32 { bits: FLOOR_DBFS }).lt_spec(
                    (#[trigger] final(self).holds@[ch]).dbfs,
                ),
    {
        let elapsed: F32 = match self.last_frame {
            None => F32 { bits: 0 },
            Some(prev) => {
                let span: i128 = now.since(prev);
                let nanos: u64 = if span >= 0 { span as u64 } else { 0 };
                F32::from_u64(nanos / 1_000_000_000).add(
                    F32::from_u64(nanos % 1_000_000_000).div(F32 { bits: NANOS_PER_SEC }),
                )
            },
        };
        let dt: F32 = elapsed.min(F32 { bits: MAX_FRAME_SECS });
        self.last_frame = Some(now);
        self.advance(data, dt);
        self.is_animating()
    }
}

/// What a shape is painted with.
#[derive(Clone, Copy, PartialEq, Eq, Structural, Debug)]
pub enum Paint {
    Track,
    Border,
    Grid,
    Text,
    Level(Zone),
    LedOff,
}

/// Which edge of a label its position names.
#[derive(Clone, Copy, PartialEq, Eq, Structural, Debug)]
pub enum Anchor {
    /// The right edge, half way up.
    RightMiddle,
    /// The middle of the top edge.
    TopCentre,
}

/// A piece of the picture.
#[derive(Clone, Debug)]
pub enum Shape {
    Fill { area: Rectangle, paint: Paint },
    Outline { area: Rectangle, paint: Paint },
    Label { text: String, x: F32, y: F32, anchor: Anchor },
}

/// A piece of the picture, its text as characters.
pub ghost enum ShapeView {
    Fill { area: Rectangle, paint: Paint },
    Outline { area: Rectangle, paint: Paint },
    Label { text: Seq<char>, x: F32, y: F32, anchor: Anchor },
}

impl View for Shape {
    type V = ShapeView;

    open spec fn view(&self) -> ShapeView {
        match self {
            Shape::Fill { area, paint } => ShapeView::Fill { area: *area, paint: *paint },
            Shape::Outline { area, paint } => ShapeView::Outline { area: *area, paint: *paint },
            Shape::Label { text, x, y, anchor } => ShapeView::Label {
                text: text@,
                x: *x,
                y: *y,
                anchor: *anchor,
            },
        }
    }
}

pub open spec fn views(s: Seq<Shape>) -> Seq<ShapeView> {
    Seq::new(s.len(), |i: int| s[i]@)
}

fn push_shape(out: &mut Vec<Shape>, shape: Shape)
    ensures
        views(final(out)@) == views(old(out)@).push(shape@),
{
    out.push(shape);
    assert(views(out@) =~= views(old(out)@).push(shape@));
}

/// The part of a bar that lies in one zone; nothing where the level does not reach it.
pub open spec fn segment(
    row: Rectangle,
    track: Rectangle,
    top: F32,
    from: F32,
    to: F32,
    zone: Zone,
) -> Seq<ShapeView> {
    let end = to.min_spec(top);
    if end.le_spec(from) {
        Seq::empty()
    } else {
        let left = x_of(from, track);
        seq![
            ShapeView::Fill {
                area: Rectangle {
                    x: left,
                    y: row.y,
                    width: x_of(end, track).sub_spec(left),
                    height: row.height,
                },
                paint: Paint::Level(zone),
            },
        ]
    }
}

/// One channel's RMS bar, coloured by the zones it passes through.
pub open spec fn bar(row: Rectangle, track: Rectangle, top: F32) -> Seq<ShapeView> {
    segment(
        row,
        track,
        top,
        F32 { bits: FLOOR_DBFS },
        F32 { bits: CAUTION_DBFS },
        Zone::Safe,
    ) + segment(
        row,
        track,
        top,
        F32 { bits: CAUTION_DBFS },
        F32 { bits: DANGER_DBFS },
        Zone::Caution,
    ) + segment(row, track, top, F32 { bits: DANGER_DBFS }, F32 { bits: 0 }, Zone::Danger)
}

fn draw_segment(
    out: &mut Vec<Shape>,
    row: Rectangle,
    track: Rectangle,
    top: F32,
    from: F32,
    to: F32,
    zone: Zone,
)
    ensures
        views(final(out)@) == views(old(out)@) + segment(row, track, top, from, to, zone),
{
    let end: F32 = to.min(top);
    if end.le(from) {
        assert(views(out@) =~= views(out@) + segment(row, track, top, from, to, zone));
        return;
    }
    let left: F32 = x_for_dbfs(from, track);
    let right: F32 = x_for_dbfs(end, track);
    let ghost before = views(out@);
    push_shape(
        out,
        Shape::Fill {
            area: Rectangle { x: left, y: row.y, width: right.sub(left), height: row.height },
            paint: Paint::Level(zone),
        },
    );
    assert(views(out@) =~= before + segment(row, track, top, from, to, zone));
}

/// Draw one channel's RMS bar. The bar is segmented rather than tinted as a whole: colouring
/// all of it by its loudest value reads as a level change that did not happen.
fn draw_bar(out: &mut Vec<Shape>, row: Rectangle, track: Rectangle, top: F32)
    ensures
        views(final(out)@) == views(old(out)@) + bar(row, track, top),
{
    let ghost before = views(out@);
    draw_segment(
        out,
        row,
        track,
        top,
        F32 { bits: FLOOR_DBFS },
        F32 { bits: CAUTION_DBFS },
        Zone::Safe,
    );
    draw_segment(
        out,
        row,
        track,
        top,
        F32 { bits: CAUTION_DBFS },
        F32 { bits: DANGER_DBFS },
        Zone::Caution,
    );
    draw_segment(
        out,
        row,
        track,
        top,
        F32 { bits: DANGER_DBFS },
        F32 { bits: 0 },
        Zone::Danger,
    );
    assert(views(out@) =~= before + bar(row, track, top));
}

/// The peak marker, pulled in at the very right so that it stays inside the track; none at
/// the floor. Its colour comes from its own level, not the bar's.
pub open spec fn marker_shape(row: Rectangle, track: Rectangle, hold: F32) -> Seq<ShapeView> {
    if (F32 { bits: FLOOR_DBFS }).lt_spec(hold) {
        seq![
            ShapeView::Fill {
                area: Rectangle {
                    x: x_of(hold, track).min_spec(
                        track.x.add_spec(track.width).sub_spec(F32 { bits: PEAK_TICK_WIDTH }),
                    ).max_spec(track.x),
                    y: row.y,
                    width: F32 { bits: PEAK_TICK_WIDTH },
                    height: row.height,
                },
                paint: Paint::Level(zone_of(hold)),
            },
        ]
    } else {
        Seq::empty()
    }
}

/// The clip indicator, past the full-scale end of its own row, and drawn unlit rather than
/// hidden.
pub open spec fn clip_shape(row: Rectangle, track: Rectangle, clipped: bool) -> ShapeView {
    ShapeView::Fill {
        area: Rectangle {
            x: track.x.add_spec(track.width).add_spec(F32 { bits: STRIP_GAP }),
            y: row.y,
            width: F32 { bits: CLIP_STRIP_WIDTH },
            height: row.height,
        },
        paint: if clipped {
            Paint::Level(Zone::Danger)
        } else {
            Paint::LedOff
        },
    }
}

/// The channel number, counted from one, where the row is tall enough for it.
pub open spec fn number_shape(row: Rectangle, ch: nat) -> Seq<ShapeView> {
    if (F32 { bits: LABEL_SIZE }).le_spec(row.height) {
        seq![
            ShapeView::Label {
                text: text::decimal(ch + 1),
                x: (F32 { bits: CHANNEL_LABEL_WIDTH }).sub_spec(
                    (F32 { bits: STRIP_GAP }).mul_spec(F32 { bits: PAIR }),
                ),
                y: row.y.add_spec(row.height.div_spec(F32 { bits: PAIR })),
                anchor: Anchor::RightMiddle,
            },
        ]
    } else {
        Seq::empty()
    }
}

/// Everything on one channel's row.
pub open spec fn row_shapes(
    row: Rectangle,
    track: Rectangle,
    data: MeterData,
    state: MeterState,
    ch: nat,
) -> Seq<ShapeView> {
    bar(row, track, data.rms_level(ch as int)) + marker_shape(
        row,
        track,
        state.marker(ch as int),
    ) + seq![clip_shape(row, track, data.has_clipped(ch as int))] + number_shape(row, ch)
}

pub open spec fn all_rows(
    rows: Seq<Rectangle>,
    track: Rectangle,
    data: MeterData,
    state: MeterState,
) -> Seq<ShapeView>
    decreases rows.len(),
{
    if rows.len() == 0 {
        Seq::empty()
    } else {
        all_rows(rows.drop_last(), track, data, state) + row_shapes(
            rows.last(),
            track,
            data,
            state,
            (rows.len() - 1) as nat,
        )
    }
}

fn draw_row(
    out: &mut Vec<Shape>,
    row: Rectangle,
    track: Rectangle,
    data: &MeterData,
    state: &MeterState,
    ch: usize,
)
    requires
        ch < usize::MAX,
    ensures
        views(final(out)@) == views(old(out)@) + row_shapes(row, track, *data, *state, ch as nat),
{
    let ghost before = views(out@);
    draw_bar(out, row, track, data.rms_dbfs(ch));
    let hold: F32 = state.hold_dbfs(ch);
    let ghost barred = views(out@);
    if (F32 { bits: FLOOR_DBFS }).lt(hold) {
        let x: F32 = x_for_dbfs(hold, track).min(
            track.x.add(track.width).sub(F32 { bits: PEAK_TICK_WIDTH }),
        ).max(track.x);
        push_shape(
            out,
            Shape::Fill {
                area: Rectangle {
                    x,
                    y: row.y,
                    width: F32 { bits: PEAK_TICK_WIDTH },
                    height: row.height,
                },
                paint: Paint::Level(zone_for(hold)),
            },
        );
    }
    assert(views(out@) =~= barred + marker_shape(row, track, hold));
    push_shape(
        out,
        Shape::Fill {
            area: Rectangle {
                x: track.x.add(track.width).add(F32 { bits: STRIP_GAP }),
                y: row.y,
                width: F32 { bits: CLIP_STRIP_WIDTH },
                height: row.height,
            },
            paint: if data.clipped(ch) {
                Paint::Level(Zone::Danger)
            } else {
                Paint::LedOff
            },
        },
    );
    let ghost lit = views(out@);
    if (F32 { bits: LABEL_SIZE }).le(row.height) {
        let mut number: String = String::new();
        push_decimal(&mut number, (ch + 1) as u128);
        assert(number@ =~= text::decimal((ch + 1) as nat));
        push_shape(
            out,
            Shape::Label {
                text: number,
                x: (F32 { bits: CHANNEL_LABEL_WIDTH }).sub(
                    (F32 { bits: STRIP_GAP }).mul(F32 { bits: PAIR }),
                ),
                y: row.y.add(row.height.div(F32 { bits: PAIR })),
                anchor: Anchor::RightMiddle,
            },
        );
    }
    assert(views(out@) =~= lit + number_shape(row, ch as nat));
    assert(views(out@) =~= before + row_shapes(row, track, *data, *state, ch as nat));
}

/// Whether a tick is among the labelled ones.
fn is_labelled(labels: &Vec<F32>, db: F32) -> (r: bool)
    ensures
        r == labels@.contains(db),
{
    let mut i: usize = 0;
    while i < labels.len()
        invariant
            i <= labels@.len(),
            forall|k: int| 0 <= k < i ==> labels@[k] != db,
        decreases labels@.len() - i,
    {
        if labels[i] == db {
            assert(labels@[i as int] == db);
            return true;
        }
        i = i + 1;
    }
    false
}

/// The right end of the range that a gridline is kept in.
pub open spec fn grid_right(track: Rectangle) -> F32 {
    track.x.add_spec(track.width).sub_spec(F32 { bits: UNITY })
}

/// A gridline, and its label where it has one. Full scale is the clipping line, a limit and
/// not a gradation, so it gets the danger colour.
pub open spec fn tick_shapes(db: F32, track: Rectangle, labels_y: F32, labels: Seq<F32>) -> Seq<
    ShapeView,
> {
    let x = x_of(db, track);
    let line = ShapeView::Fill {
        area: Rectangle {
            x: x.sub_spec(F32 { bits: HALF }).clamp_spec(track.x, grid_right(track)),
            y: track.y,
            width: F32 { bits: UNITY },
            height: track.height,
        },
        paint: if (F32 { bits: 0 }).le_spec(db) {
            Paint::Level(Zone::Danger)
        } else {
            Paint::Grid
        },
    };
    if labels.contains(db) {
        seq![
            line,
            ShapeView::Label {
                text: text::fixed(db.to_f64_spec(), 0),
                x,
                y: labels_y,
                anchor: Anchor::TopCentre,
            },
        ]
    } else {
        seq![line]
    }
}

pub open spec fn all_ticks(s: Seq<F32>, track: Rectangle, labels_y: F32, labels: Seq<F32>) -> Seq<
    ShapeView,
>
    decreases s.len(),
{
    if s.len() == 0 {
        Seq::empty()
    } else {
        all_ticks(s.drop_last(), track, labels_y, labels) + tick_shapes(
            s.last(),
            track,
            labels_y,
            labels,
        )
    }
}

fn draw_tick(out: &mut Vec<Shape>, db: F32, track: Rectangle, labels_y: F32, labels: &Vec<F32>)
    requires
        track.x.le_spec(grid_right(track)),
    ensures
        views(final(out)@) == views(old(out)@) + tick_shapes(db, track, labels_y, labels@),
{
    let ghost before = views(out@);
    let x: F32 = x_for_dbfs(db, track);
    let right: F32 = track.x.add(track.width).sub(F32 { bits: UNITY });
    push_shape(
        out,
        Shape::Fill {
            area: Rectangle {
                x: x.sub(F32 { bits: HALF }).clamp(track.x, right),
                y: track.y,
                width: F32 { bits: UNITY },
                height: track.height,
            },
            paint: if (F32 { bits: 0 }).le(db) {
                Paint::Level(Zone::Danger)
            } else {
                Paint::Grid
            },
        },
    );
    if is_labelled(labels, db) {
        let mut number: String = String::new();
        push_fixed(&mut number, db.to_f64(), 0);
        assert(number@ =~= text::fixed(db.to_f64_spec(), 0));
        push_shape(out, Shape::Label { text: number, x, y: labels_y, anchor: Anchor::TopCentre });
    }
    assert(views(out@) =~= before + tick_shapes(db, track, labels_y, labels@));
}

/// Whether there is anything to draw at all.
pub open spec fn is_drawable(track: Rectangle) -> bool {
    !track.width.le_spec(F32 { bits: 0 }) && !track.height.le_spec(F32 { bits: 0 })
}

/// Whether the gridlines have room: a track that is drawn is at least as wide as one of them.
pub open spec fn has_room(size: Size, channels: nat) -> bool {
    let track = track_of(size, channels);
    is_drawable(track) ==> track.x.le_spec(grid_right(track))
}

/// Whether the gridlines have room. The meter can be drawn only where they do.
pub fn grid_fits(size: Size, channels: usize) -> (r: bool)
    ensures
        r == has_room(size, channels as nat),
{
    let track: Rectangle = layout(size, channels).track;
    track.width.le(F32 { bits: 0 }) || track.height.le(F32 { bits: 0 }) || track.x.le(
        track.x.add(track.width).sub(F32 { bits: UNITY }),
    )
}

/// The whole picture: the track, the rows from the top down, the scale on top of the bars,
/// and the border. Nothing where there is no room.
pub open spec fn picture(data: MeterData, state: MeterState, size: Size) -> Seq<ShapeView> {
    let track = track_of(size, data.bars());
    if !is_drawable(track) {
        Seq::empty()
    } else {
        seq![ShapeView::Fill { area: track, paint: Paint::Track }] + all_rows(
            rows_of(area_of(size), data.bars()),
            track,
            data,
            state,
        ) + all_ticks(
            ticks(),
            track,
            labels_y_of(size, data.bars()),
            labelled(ticks(), track.width).0,
        ) + seq![ShapeView::Outline { area: track, paint: Paint::Border }]
    }
}

/// Draws the meter at a size.
pub fn draw(data: &MeterData, state: &MeterState, size: Size) -> (r: Vec<Shape>)
    requires
        has_room(size, data.bars()),
    ensures
        views(r@) == picture(*data, *state, size),
{
    let mut out: Vec<Shape> = Vec::new();
    let l: Layout = layout(size, data.channels());
    let track: Rectangle = l.track;
    if track.width.le(F32 { bits: 0 }) || track.height.le(F32 { bits: 0 }) {
        assert(views(out@) =~= picture(*data, *state, size));
        return out;
    }
    push_shape(&mut out, Shape::Fill { area: track, paint: Paint::Track });
    let ghost base = views(out@);
    assert(base =~= seq![ShapeView::Fill { area: track, paint: Paint::Track }]);
    let mut ch: usize = 0;
    assert(l.rows@.take(0) =~= Seq::<Rectangle>::empty());
    assert(views(out@) =~= base + all_rows(l.rows@.take(0), track, *data, *state));
    while ch < l.rows.len()
        invariant
            ch <= l.rows@.len(),
            track == l.track,
            views(out@) == base + all_rows(l.rows@.take(ch as int), track, *data, *state),
        decreases l.rows@.len() - ch,
    {
        draw_row(&mut out, l.rows[ch], track, data, state, ch);
        assert(l.rows@.take(ch + 1).drop_last() =~= l.rows@.take(ch as int));
        assert(l.rows@.take(ch + 1).last() == l.rows@[ch as int]);
        ch = ch + 1;
        assert(views(out@) =~= base + all_rows(l.rows@.take(ch as int), track, *data, *state));
    }
    assert(l.rows@.take(ch as int) =~= l.rows@);
    let labels: Vec<F32> = labelled_ticks(track.width);
    let scale: Vec<F32> = ticks_dbfs();
    let ghost rowed = views(out@);
    let mut i: usize = 0;
    assert(scale@.take(0) =~= Seq::<F32>::empty());
    assert(views(out@) =~= rowed + all_ticks(scale@.take(0), track, l.labels_y, labels@));
    while i < scale.len()
        invariant
            i <= scale@.len(),
            track == l.track,
            track.x.le_spec(grid_right(track)),
            views(out@) == rowed + all_ticks(scale@.take(i as int), track, l.labels_y, labels@),
        decreases scale@.len() - i,
    {
        draw_tick(&mut out, scale[i], track, l.labels_y, &labels);
        assert(scale@.take(i + 1).drop_last() =~= scale@.take(i as int));
        assert(scale@.take(i + 1).last() == scale@[i as int]);
        i = i + 1;
        assert(views(out@) =~= rowed + all_ticks(
            scale@.take(i as int),
            track,
            l.labels_y,
            labels@,
        ));
    }
    assert(scale@.take(i as int) =~= scale@);
    push_shape(&mut out, Shape::Outline { area: track, paint: Paint::Border });
    assert(views(out@) =~= picture(*data, *state, size));
    out
}

/// A widget too small to draw lays out no rows and draws nothing.
pub proof fn law_too_small_draws_nothing(data: MeterData, state: MeterState, size: Size)
    requires
        area_of(size).width.le_spec(F32 { bits: 0 }) || area_of(size).height.le_spec(
            F32 { bits: 0 },
        ),
    ensures
        rows_of(area_of(size), data.bars()).len() == 0,
        picture(data, state, size).len() == 0,
{
}

/// The constants of the marker and the zones, in numbers.
proof fn lemma_marker_constants()
    ensures
        (F32 { bits: PEAK_HOLD_SECS }).is_finite_spec(),
        2 * (F32 { bits: PEAK_HOLD_SECS }).value() == 3 * pow2(149),
        (F32 { bits: PEAK_FALL_DB_PER_SEC }).is_finite_spec(),
        (F32 { bits: PEAK_FALL_DB_PER_SEC }).value() == 20 * pow2(149),
        (F32 { bits: CAUTION_DBFS }).is_finite_spec(),
        (F32 { bits: CAUTION_DBFS }).value() == -18 * pow2(149),
        (F32 { bits: DANGER_DBFS }).is_finite_spec(),
        (F32 { bits: DANGER_DBFS }).value() == -3 * pow2(149),
        (F32 { bits: 0 }).value() == 0,
        pow2(149) > 0,
{
    lemma2_to64();
    let half = pow2(23) as int;
    lemma_pow2_pos(149);
    lemma_fundamental_div_mod_converse(PEAK_HOLD_SECS as int, half, 127, 0x40_0000);
    lemma_pow2_adds(23, 126);
    assert(2 * (0xC0_0000 * pow2(126)) == 3 * (0x80_0000 * pow2(126))) by (nonlinear_arith);
    lemma_fundamental_div_mod_converse(PEAK_FALL_DB_PER_SEC as int, half, 131, 0x20_0000);
    lemma_pow2_adds(19, 130);
    assert(0xA0_0000 * pow2(130) == 20 * (0x8_0000 * pow2(130))) by (nonlinear_arith);
    lemma_fundamental_div_mod_converse(0x4190_0000, half, 131, 0x10_0000);
    assert(0x90_0000 * pow2(130) == 18 * (0x8_0000 * pow2(130))) by (nonlinear_arith);
    assert(ops::magnitude(Width::Single, CAUTION_DBFS as nat) == 18 * pow2(149));
    lemma_fundamental_div_mod_converse(0x4040_0000, half, 128, 0x40_0000);
    lemma_pow2_adds(22, 127);
    assert(0xC0_0000 * pow2(127) == 3 * (0x40_0000 * pow2(127))) by (nonlinear_arith);
    assert(ops::magnitude(Width::Single, DANGER_DBFS as nat) == 3 * pow2(149));
    accuracy::lemma_zero(Width::Single);
}

/// The zones in numbers: from three decibels below full scale a level is a danger, from eighteen a
/// caution, and below that it is safe.
pub proof fn law_the_zones_begin_at_eighteen_and_three(dbfs: F32)
    requires
        dbfs.is_finite_spec(),
    ensures
        zone_of(dbfs) == if dbfs.value() >= -3 * pow2(149) {
            Zone::Danger
        } else if dbfs.value() >= -18 * pow2(149) {
            Zone::Caution
        } else {
            Zone::Safe
        },
{
    let f = Width::Single;
    lemma_marker_constants();
    accuracy::lemma_finite_order(f, DANGER_DBFS as nat, dbfs.bits as nat);
    accuracy::lemma_finite_order(f, CAUTION_DBFS as nat, dbfs.bits as nat);
}

/// The steps of a falling marker: `w` is how long it falls, `t` that as computed, `g` how far, and
/// `r` where it comes to.
proof fn lemma_fall_steps(h: int, w: int, t: int, g: int, r: int, v: int)
    requires
        v > 0,
        w >= 0,
        0x100_0000 * abs(t - w) <= w,
        0x100_0000 * abs(g * v - t * (20 * v)) <= abs(t * (20 * v)) + 0x80_0000 * v,
        0x100_0000 * abs(r - (h - g)) <= abs(h - g),
    ensures
        0x20_0000 * abs(r - (h - 20 * w)) <= abs(h) + 20 * w + 0x20_0000,
{
    let e = g - 20 * t;
    assert(g * v - t * (20 * v) == e * v) by (nonlinear_arith)
        requires
            e == g - 20 * t,
    ;
    assert(abs(e * v) == abs(e) * v && abs(t * (20 * v)) == (20 * abs(t)) * v) by (nonlinear_arith)
        requires
            v > 0,
    ;
    assert(0x100_0000 * abs(e) <= 20 * abs(t) + 0x80_0000) by (nonlinear_arith)
        requires
            0x100_0000 * (abs(e) * v) <= (20 * abs(t)) * v + 0x80_0000 * v,
            v > 0,
    ;
}

/// The marker waits, then falls. A peak above it moves it up, where it stays for a second and a
/// half. While that time lasts it does not move. After it, it falls by twenty decibels for each
/// second, to within the rounding, and no further than the peak that is there.
pub proof fn law_the_marker_waits_and_then_falls(h: Hold, peak_dbfs: F32, dt: F32)
    requires
        h.dbfs.is_finite_spec(),
        peak_dbfs.is_finite_spec(),
        h.dwell_secs.is_finite_spec(),
        dt.is_finite_spec(),
        abs(h.dbfs.value()) <= pow2(200),
        0 <= h.dwell_secs.value() <= pow2(200),
        0 <= dt.value() <= pow2(200),
    ensures
        ({
            let one = pow2(149) as int;
            let r = h.after(peak_dbfs, dt);
            let from = h.dbfs.value();
            let peak = peak_dbfs.value();
            let wait = h.dwell_secs.value();
            let late: int = if dt.value() > wait { dt.value() - wait } else { 0 };
            let down = from - 20 * late;
            let to = if down > peak { down } else { peak };
            &&& from <= peak ==> r.dbfs.value() == peak && 2 * r.dwell_secs.value() == 3 * one
            &&& from > peak ==> {
                &&& r.dbfs.is_finite_spec()
                &&& r.dwell_secs.is_finite_spec()
                &&& late == 0 ==> r.dbfs.value() == from
                &&& late > 0 ==> r.dwell_secs.value() == 0
                &&& 0x20_0000 * abs(r.dbfs.value() - to) <= abs(from) + 20 * late + 0x20_0000
                &&& r.dbfs.value() >= peak
            }
        }),
{
    let f = Width::Single;
    let v = pow2(149) as int;
    let zero = F32 { bits: 0 };
    let fall = F32 { bits: PEAK_FALL_DB_PER_SEC };
    lemma_marker_constants();
    accuracy::lemma_finite_order(f, h.dbfs.bits as nat, peak_dbfs.bits as nat);
    accuracy::lemma_finite_order(f, peak_dbfs.bits as nat, h.dbfs.bits as nat);
    let from = h.dbfs.value();
    let peak = peak_dbfs.value();
    let wait = h.dwell_secs.value();
    if from > peak {
        lemma2_to64();
        bounds::lemma_pow2_order(200, 253);
        lemma_pow2_pos(253);
        single::lemma_difference_is_finite(dt, h.dwell_secs);
        single::lemma_difference_is_finite(h.dwell_secs, dt);
        let d = dt.sub_spec(h.dwell_secs);
        let e = h.dwell_secs.sub_spec(dt);
        single::lemma_finite_difference(dt, h.dwell_secs);
        single::lemma_finite_difference(h.dwell_secs, dt);
        accuracy::lemma_finite_order(f, d.bits as nat, 0);
        accuracy::lemma_finite_order(f, 0, d.bits as nat);
        accuracy::lemma_finite_order(f, e.bits as nat, 0);
        accuracy::lemma_finite_order(f, 0, e.bits as nat);
        let falling = d.max_spec(zero);
        let late: int = if dt.value() > wait { dt.value() - wait } else { 0 };
        let t = falling.value();
        assert(0x100_0000 * abs(t - late) <= late);
        assert(abs(t) <= 2 * pow2(200));
        lemma_pow2_adds(9, 200);
        bounds::lemma_pow2_order(209, 253);
        assert(abs(t) * abs(20 * v) <= (0xFF_FFFF * pow2(253)) * v) by (nonlinear_arith)
            requires
                0 <= abs(t) <= 2 * pow2(200),
                pow2(209) == 512 * pow2(200),
                pow2(209) <= pow2(253),
                v > 0,
        {
            assert(abs(20 * v) == 20 * v);
            assert(abs(t) * (20 * v) <= (2 * pow2(200)) * (20 * v));
            assert((2 * pow2(200)) * (20 * v) <= pow2(253) * v);
        }
        single::lemma_product_is_finite(falling, fall);
        let g = falling.mul_spec(fall);
        single::lemma_finite_product(falling, fall);
        let gv = g.value();
        assert(abs(gv) <= 64 * pow2(200)) by (nonlinear_arith)
            requires
                0x100_0000 * abs(gv * v - t * (20 * v)) <= abs(t * (20 * v)) + 0x80_0000 * v,
                abs(t) <= 2 * pow2(200),
                pow2(200) >= 1,
                v > 0,
        {
            assert(abs(t * (20 * v)) == (20 * abs(t)) * v);
            assert((20 * abs(t)) * v <= (40 * pow2(200)) * v);
            assert(abs(gv * v) == abs(gv) * v);
            assert(v <= pow2(200) * v);
            assert(abs(gv) * v <= (64 * pow2(200)) * v);
        }
        single::lemma_difference_is_finite(h.dbfs, g);
        let r = h.dbfs.sub_spec(g);
        single::lemma_finite_difference(h.dbfs, g);
        lemma_fall_steps(from, late, t, gv, r.value(), v);
        accuracy::lemma_finite_order(f, r.bits as nat, peak_dbfs.bits as nat);
        accuracy::lemma_finite_order(f, peak_dbfs.bits as nat, r.bits as nat);
        assert(h.after(peak_dbfs, dt).dbfs == r.max_spec(peak_dbfs));
        if late == 0 {
            assert(t == 0);
            assert(t * (20 * v) == 0) by (nonlinear_arith)
                requires
                    t == 0,
            ;
            assert(gv == 0) by (nonlinear_arith)
                requires
                    0x100_0000 * abs(gv * v) <= 0x80_0000 * v,
                    v > 0,
            ;
            single::lemma_exact_difference(h.dbfs, g);
        }
    }
}

/// The steps from a level to its place: `t` is how far along the scale it reads, `p` how far along
/// the track that is as computed, and `r` the place.
proof fn lemma_place_steps(x: int, w: int, db: int, t: int, p: int, r: int, v: int)
    requires
        v > 0,
        0 <= t <= 2 * v,
        0x40_0000 * abs(72 * t - (db + 72 * v)) <= 72 * v,
        0x100_0000 * abs(p * v - w * t) <= abs(w * t) + 0x80_0000 * v,
        0x100_0000 * abs(r - (x + p)) <= abs(x + p),
    ensures
        0x8_0000 * abs((72 * v) * (r - x) - w * (db + 72 * v)) <= (72 * v) * (abs(x) + abs(w)
            + 0x8_0000),
{
    let g = r - x - p;
    let h = p * v - w * t;
    let k = 72 * t - (db + 72 * v);
    let xv = abs(x) * v;
    let wv = abs(w) * v;
    let pv = abs(p) * v;
    let gv = abs(g) * v;
    let wk = abs(w) * abs(k);
    assert((72 * v) * (r - x) - w * (db + 72 * v) == 72 * (g * v) + 72 * h + w * k)
        by (nonlinear_arith)
        requires
            g == r - x - p,
            h == p * v - w * t,
            k == 72 * t - (db + 72 * v),
    ;
    assert(abs(g * v) == gv && abs(w * k) == wk && abs(p * v) == pv) by (nonlinear_arith)
        requires
            v > 0,
            gv == abs(g) * v,
            wk == abs(w) * abs(k),
            pv == abs(p) * v,
    ;
    assert(abs(w * t) <= 2 * wv) by (nonlinear_arith)
        requires
            0 <= t <= 2 * v,
            wv == abs(w) * v,
    {
        assert(abs(w * t) == abs(w) * t);
        assert(abs(w) * t <= abs(w) * (2 * v));
    }
    assert(0x40_0000 * wk <= 72 * wv) by (nonlinear_arith)
        requires
            wk == abs(w) * abs(k),
            wv == abs(w) * v,
            0x40_0000 * abs(k) <= 72 * v,
    {
        assert(abs(w) * (0x40_0000 * abs(k)) <= abs(w) * (72 * v));
    }
    assert(0x100_0000 * gv <= xv + pv) by (nonlinear_arith)
        requires
            gv == abs(g) * v,
            xv == abs(x) * v,
            pv == abs(p) * v,
            0x100_0000 * abs(g) <= abs(x) + abs(p),
            v > 0,
    {
        assert((0x100_0000 * abs(g)) * v <= (abs(x) + abs(p)) * v);
    }
    assert(xv >= 0 && wv >= 0 && gv >= 0 && wk >= 0) by (nonlinear_arith)
        requires
            xv == abs(x) * v,
            wv == abs(w) * v,
            gv == abs(g) * v,
            wk == abs(w) * abs(k),
            v > 0,
    ;
    assert((72 * v) * (abs(x) + abs(w) + 0x8_0000) == 72 * xv + 72 * wv + 72 * (0x8_0000 * v))
        by (nonlinear_arith)
        requires
            xv == abs(x) * v,
            wv == abs(w) * v,
    ;
}

/// A level stands as far along the track as it lies above the floor of the scale, of seventy-two
/// decibels in all, to within the rounding: the floor is at the left end and full scale at the
/// right one.
pub proof fn law_a_level_stands_as_far_along_the_track(dbfs: F32, track: Rectangle)
    requires
        dbfs.is_finite_spec(),
        -72 * pow2(149) <= dbfs.value() <= 0,
        track.x.is_finite_spec(),
        track.width.is_finite_spec(),
        abs(track.x.value()) <= pow2(200),
        abs(track.width.value()) <= pow2(200),
    ensures
        ({
            let one = pow2(149) as int;
            let x = track.x.value();
            let w = track.width.value();
            let r = x_of(dbfs, track);
            &&& r.is_finite_spec()
            &&& 0x8_0000 * abs((72 * one) * (r.value() - x) - w * (dbfs.value() + 72 * one)) <= (72
                * one) * (abs(x) + abs(w) + 0x8_0000)
        }),
{
    let v = pow2(149) as int;
    let x = track.x.value();
    let w = track.width.value();
    let part = meters::fraction_of(dbfs);
    let t = part.value();
    lemma_pow2_pos(149);
    lemma2_to64();
    lemma_pow2_adds(9, 200);
    bounds::lemma_pow2_order(209, 253);
    lemma_pow2_pos(200);
    loudness::law_the_scale_is_even(dbfs);
    accuracy::lemma_zero(Width::Single);
    accuracy::lemma_finite_order(Width::Single, 0, part.bits as nat);
    assert(0 <= t <= 2 * v);
    let b = pow2(200) as int;
    assert(abs(w * t) <= 2 * (b * v) && abs(w) * abs(t) <= (0xFF_FFFF * pow2(253)) * v)
        by (nonlinear_arith)
        requires
            0 <= t <= 2 * v,
            abs(w) <= b,
            pow2(209) == 512 * b,
            pow2(209) <= pow2(253),
            b > 0,
            v > 0,
    {
        assert(abs(w * t) == abs(w) * t);
        assert(abs(w) * t <= b * t);
        assert(b * t <= b * (2 * v));
        assert(b * v <= pow2(253) * v);
    }
    single::lemma_product_is_finite(track.width, part);
    single::lemma_finite_product(track.width, part);
    let p = track.width.mul_spec(part);
    let pv = p.value();
    assert(abs(pv) <= 8 * b) by (nonlinear_arith)
        requires
            0x100_0000 * abs(pv * v - w * t) <= abs(w * t) + 0x80_0000 * v,
            abs(w * t) <= 2 * (b * v),
            b >= 1,
            v > 0,
    {
        assert(abs(pv * v) == abs(pv) * v);
        assert(v <= b * v);
        assert(abs(pv) * v <= (8 * b) * v);
    }
    single::lemma_sum_is_finite(track.x, p);
    single::lemma_finite_sum(track.x, p);
    lemma_place_steps(x, w, dbfs.value(), t, pv, x_of(dbfs, track).value(), v);
}

} // verus!
