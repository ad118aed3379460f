//! The level meter on the window.

use syncrec::audio::meters::{dbfs_to_fraction, to_dbfs, FLOOR_DBFS};
use syncrec::float::F32;
use syncrec::time::Instant;
use syncrec::ui::meter::{
    draw, grid_fits, labelled_ticks, layout, preferred_height, rows, ticks_dbfs, x_for_dbfs,
    zone_for, Anchor, Hold, MeterData, MeterState, Paint, Rectangle, Shape, Size, Zone,
    CAUTION_DBFS, CHANNEL_LABEL_WIDTH, CLIP_STRIP_WIDTH, DANGER_DBFS, LABEL_STRIP_HEIGHT,
    MAX_FRAME_SECS, MAX_ROW_HEIGHT, MIN_LABEL_SPACING, PEAK_FALL_DB_PER_SEC, PEAK_HOLD_SECS,
    ROW_GAP, ROW_HEIGHT, STRIP_GAP,
};

fn single(x: f32) -> F32 {
    F32::from_bits(x.to_bits())
}

fn num(x: F32) -> f32 {
    f32::from_bits(x.to_bits())
}

fn px(bits: u32) -> f32 {
    f32::from_bits(bits)
}

fn dbfs(mag: f32) -> f32 {
    num(to_dbfs(single(mag), single(mag.log10())))
}

fn fraction(db: f32) -> f32 {
    num(dbfs_to_fraction(single(db)))
}

/// A track 720 px wide makes the arithmetic exact: 72 dB of scale, 10 px per dB.
fn track() -> Rectangle {
    Rectangle {
        x: single(0.0),
        y: single(0.0),
        width: single(720.0),
        height: single(100.0),
    }
}

fn x_of(db: f32) -> f32 {
    num(x_for_dbfs(single(db), track()))
}

fn size(width: f32, height: f32) -> Size {
    Size {
        width: single(width),
        height: single(height),
    }
}

fn height(channels: usize) -> f32 {
    num(preferred_height(channels))
}

/// A realistic window-width panel: wide, and only as tall as the meter asked for.
fn panel(channels: usize) -> Size {
    size(900.0, height(channels))
}

#[derive(Debug, Clone, Copy, PartialEq)]
struct Box4 {
    x: f32,
    y: f32,
    width: f32,
    height: f32,
}

fn box4(r: &Rectangle) -> Box4 {
    Box4 {
        x: num(r.x),
        y: num(r.y),
        width: num(r.width),
        height: num(r.height),
    }
}

fn boxes(v: &[Rectangle]) -> Vec<Box4> {
    v.iter().map(box4).collect()
}

struct Laid {
    track: Box4,
    rows: Vec<Box4>,
    labels_y: f32,
}

fn laid(size: Size, channels: usize) -> Laid {
    let l = layout(size, channels);
    Laid {
        track: box4(&l.track),
        rows: boxes(&l.rows),
        labels_y: num(l.labels_y),
    }
}

fn labels(width: f32) -> Vec<f32> {
    labelled_ticks(single(width)).iter().map(|x| num(*x)).collect()
}

fn data(peak: &[f32], rms: &[f32], clipped: &[bool]) -> MeterData {
    let all = |v: &[f32]| v.iter().map(|x| single(*x)).collect::<Vec<F32>>();
    let logs = |v: &[f32]| v.iter().map(|x| single(x.log10())).collect::<Vec<F32>>();
    MeterData::new(all(peak), all(rms), clipped.to_vec(), logs(peak), logs(rms))
}

#[test]
fn a_new_peak_snaps_up_instantly_and_restarts_the_dwell() {
    let held = Hold::idle().advance(single(-10.0), single(0.016));
    assert_eq!(num(held.dbfs), -10.0, "attack must be instantaneous");
    assert_eq!(num(held.dwell_secs), px(PEAK_HOLD_SECS));
}

#[test]
fn peak_hold_does_not_move_during_the_dwell() {
    let mut held = Hold::idle().advance(single(-10.0), single(0.0));

    // Step to just short of the full hold time.
    let mut elapsed = 0.0;
    while elapsed < px(PEAK_HOLD_SECS) - 0.1 {
        held = held.advance(single(px(FLOOR_DBFS)), single(0.05));
        elapsed += 0.05;
    }

    assert_eq!(num(held.dbfs), -10.0, "the marker must not fall while dwelling");
    assert!(num(held.dwell_secs) > 0.0);
}

#[test]
fn peak_hold_decays_at_the_documented_rate() {
    let held = Hold::idle().advance(single(-10.0), single(0.0));

    // One second past the end of the dwell.
    let after = held.advance(single(px(FLOOR_DBFS)), single(px(PEAK_HOLD_SECS) + 1.0));

    let expected = -10.0 - px(PEAK_FALL_DB_PER_SEC);
    assert!(
        (num(after.dbfs) - expected).abs() < 1e-4,
        "expected {expected}, got {}",
        num(after.dbfs)
    );
}

#[test]
fn decay_is_independent_of_how_the_frames_are_chopped_up() {
    // The release rate must be a property of the meter, not of the frame rate.
    let coarse = Hold::idle()
        .advance(single(-10.0), single(0.0))
        .advance(single(px(FLOOR_DBFS)), single(px(PEAK_HOLD_SECS) + 1.0));

    let mut fine = Hold::idle().advance(single(-10.0), single(0.0));
    let steps = ((px(PEAK_HOLD_SECS) + 1.0) / 0.01).round() as usize;
    for _ in 0..steps {
        fine = fine.advance(single(px(FLOOR_DBFS)), single(0.01));
    }

    assert!(
        (num(coarse.dbfs) - num(fine.dbfs)).abs() < 0.05,
        "coarse {} vs fine {}",
        num(coarse.dbfs),
        num(fine.dbfs)
    );
}

#[test]
fn a_frame_straddling_the_dwell_boundary_only_falls_for_the_remainder() {
    // 0.5 s of dwell left, a 1.5 s frame: exactly 1.0 s of fall, not 1.5 s.
    let held = Hold {
        dbfs: single(-20.0),
        dwell_secs: single(0.5),
    };
    let after = held.advance(single(px(FLOOR_DBFS)), single(1.5));

    let expected = -20.0 - px(PEAK_FALL_DB_PER_SEC);
    assert!(
        (num(after.dbfs) - expected).abs() < 1e-4,
        "expected {expected}, got {}",
        num(after.dbfs)
    );
    assert_eq!(num(after.dwell_secs), 0.0);
}

#[test]
fn peak_hold_never_falls_below_the_live_peak() {
    let held = Hold {
        dbfs: single(-20.0),
        dwell_secs: single(0.0),
    };
    // Enough time to fall 200 dB, but the signal is sitting at -30.
    let after = held.advance(single(-30.0), single(10.0));
    assert_eq!(
        num(after.dbfs), -30.0,
        "the marker is a maximum, never a minimum"
    );
}

#[test]
fn peak_hold_settles_at_the_floor_and_stops_animating() {
    let mut held = Hold::idle().advance(single(-6.0), single(0.0));
    for _ in 0..200 {
        held = held.advance(single(px(FLOOR_DBFS)), single(0.1));
    }
    assert_eq!(num(held.dbfs), px(FLOOR_DBFS));
    assert!(
        !held.is_active(),
        "a floored marker must not request frames"
    );
}

#[test]
fn full_scale_is_the_right_edge_of_the_track_and_the_floor_is_the_left() {
    assert!((x_of(0.0) - (720.0)).abs() < 1e-4);
    assert!((x_of(px(FLOOR_DBFS)) - 0.0).abs() < 1e-4);
}

#[test]
fn six_db_is_the_same_distance_anywhere_on_the_scale() {
    // The whole point of a dB scale: equal ratios take equal space.
    let near_full_scale = x_of(0.0) - x_of(-6.0);
    let near_the_floor = x_of(-60.0) - x_of(-66.0);
    assert!(
        (near_full_scale - near_the_floor).abs() < 1e-3,
        "{near_full_scale} vs {near_the_floor}"
    );
    assert!(
        (near_full_scale - 60.0).abs() < 1e-3,
        "10 px per dB on a 720 px track"
    );
}

#[test]
fn levels_above_full_scale_clamp_to_the_right_edge_instead_of_overdrawing() {
    // A +6 dBFS sample (magnitude 2.0) must not draw outside the widget.
    let over = dbfs(2.0);
    assert!(over > 0.0, "sanity: {over} should be above full scale");
    assert!((x_of(over) - (720.0)).abs() < 1e-4);
    assert_eq!(zone_for(single(over)), Zone::Danger);
}

#[test]
fn colour_zones_switch_at_the_documented_thresholds() {
    assert_eq!(zone_for(single(px(FLOOR_DBFS))), Zone::Safe);
    assert_eq!(zone_for(single(-24.0)), Zone::Safe);
    assert_eq!(zone_for(single(px(CAUTION_DBFS) - 0.01)), Zone::Safe);
    assert_eq!(zone_for(single(px(CAUTION_DBFS))), Zone::Caution);
    assert_eq!(zone_for(single(-10.0)), Zone::Caution);
    assert_eq!(zone_for(single(px(DANGER_DBFS) - 0.01)), Zone::Caution);
    assert_eq!(zone_for(single(px(DANGER_DBFS))), Zone::Danger);
    assert_eq!(zone_for(single(0.0)), Zone::Danger);
}

#[test]
fn zero_channels_lays_out_no_rows_but_still_draws_a_track() {
    assert!(rows(track(), 0).is_empty());

    let empty = laid(panel(0), 0);
    assert!(empty.rows.is_empty());
    assert!(
        empty.track.width > 0.0 && empty.track.height > 0.0,
        "an empty meter must still show its scale"
    );
    assert!(
        (empty.track.height - px(ROW_HEIGHT)).abs() < 1e-4,
        "the empty track is one row tall so the panel does not jump when audio \
         arrives, got {}",
        empty.track.height
    );
}

#[test]
fn zero_channels_leaves_the_state_empty_and_idle() {
    let mut state = MeterState::default();
    state.advance(&data(&[], &[], &[]), single(0.016));
    assert!(state.holds.is_empty());
    assert!(!state.is_animating());
    // Reading a channel that does not exist must not panic.
    assert_eq!(num(state.hold_dbfs(3)), px(FLOOR_DBFS));
}

#[test]
fn rows_stack_downward_without_overlapping_or_overflowing() {
    for channels in [1usize, 2, 8] {
        let area = Rectangle {
            height: single(8.0 * (px(ROW_HEIGHT) + px(ROW_GAP))),
            ..track()
        };
        let stacked = boxes(&rows(area, channels));
        assert_eq!(stacked.len(), channels);

        for pair in stacked.windows(2) {
            let (upper, lower) = (pair[0], pair[1]);
            assert!(
                upper.y + upper.height <= lower.y + 1e-3,
                "{channels} channels: rows overlap"
            );
            assert_eq!(upper.x, lower.x, "{channels} channels: rows must align");
            assert_eq!(upper.width, lower.width);
        }

        let last = stacked.last().unwrap();
        assert!(
            last.y + last.height <= num(area.y) + num(area.height) + 1e-3,
            "{channels} channels: rows overflow the stack"
        );
        assert!(last.height >= 1.0, "{channels} channels: row collapsed");
        assert!(
            (stacked[0].width - num(area.width)).abs() < 1e-4,
            "every row spans the full scale"
        );
    }
}

#[test]
fn a_lone_channel_gets_a_bar_not_a_slab() {
    // The bug this fixes: one mono channel expanded to fill the panel and read as
    // a meaningless solid block.
    let tall = size(900.0, 400.0);
    let one = laid(tall, 1);

    assert_eq!(one.rows.len(), 1);
    assert!(
        one.rows[0].height <= px(MAX_ROW_HEIGHT) + 1e-4,
        "a single row must be capped, got {}",
        one.rows[0].height
    );
    assert!(
        (one.track.height - one.rows[0].height).abs() < 1e-4,
        "the track must hug the rows rather than framing empty space"
    );
    assert!(
        one.rows[0].y < 400.0 / 4.0,
        "the stack must be top-aligned, not centred or stretched"
    );
}

#[test]
fn a_squeezed_stack_shrinks_its_rows_rather_than_dropping_channels() {
    // Eight channels in a panel sized for two: every channel must still be
    // visible, because a channel that is silently missing is worse than a thin one.
    let cramped = laid(panel(2), 8);
    assert_eq!(cramped.rows.len(), 8);
    assert!(cramped.rows.iter().all(|r| r.height >= 1.0));

    let last = cramped.rows.last().unwrap();
    assert!(
        last.y + last.height <= cramped.track.y + cramped.track.height + 1e-3,
        "rows must stay inside the track"
    );
}

#[test]
fn preferred_height_gives_every_row_its_full_height() {
    for channels in [0usize, 1, 2, 8] {
        let size = panel(channels);
        let laid_out = laid(size, channels);

        assert_eq!(laid_out.rows.len(), channels);
        for row in &laid_out.rows {
            assert!(
                (row.height - px(ROW_HEIGHT)).abs() < 1e-4,
                "{channels} channels: row is {} px, wanted {}",
                row.height,
                px(ROW_HEIGHT)
            );
        }

        // The whole widget is accounted for: stack, gap, label strip, nothing over.
        assert!(
            laid_out.labels_y + px(LABEL_STRIP_HEIGHT) <= num(size.height) + 1e-3,
            "{channels} channels: the label strip falls off the bottom"
        );
        assert!(
            (laid_out.labels_y + px(LABEL_STRIP_HEIGHT) - num(size.height)).abs() < 1e-3,
            "{channels} channels: the preferred height must not leave slack"
        );
    }

    assert!(
        height(8) > height(2),
        "more channels need more height"
    );
    assert_eq!(
        height(0),
        height(1),
        "an empty meter is sized like a mono one so the panel does not resize"
    );
    for channels in [1usize, 2, 8] {
        let per_row = height(channels) / channels as f32;
        assert!(
            (22.0..=45.0).contains(&per_row),
            "{channels} channels: {per_row} px per row is out of budget"
        );
    }
}

#[test]
fn the_label_strip_sits_under_the_stack_and_the_chrome_keeps_its_margins() {
    let laid_out = laid(panel(2), 2);

    assert!(
        laid_out.labels_y >= laid_out.track.y + laid_out.track.height,
        "dB labels belong below the last row, not over it"
    );
    assert!(
        laid_out.track.x >= px(CHANNEL_LABEL_WIDTH),
        "the channel-number gutter must not be drawn over"
    );
    assert!(
        (laid_out.track.x + laid_out.track.width + px(STRIP_GAP) + px(CLIP_STRIP_WIDTH)
            - 900.0)
            .abs()
            < 1e-3,
        "the clip indicators must fit between the track and the right edge"
    );
}

#[test]
fn a_widget_too_small_to_draw_produces_no_rows_instead_of_garbage() {
    // Parents can hand a canvas a zero or negative content box mid-relayout.
    for size in [
        size(0.0, 0.0),
        size(10.0, 200.0),
        size(900.0, 4.0),
    ] {
        let laid_out = laid(size, 2);
        assert!(
            laid_out.track.width <= 0.0 || laid_out.track.height <= 0.0,
            "{size:?} should be rejected as undrawable"
        );
        assert!(laid_out.rows.is_empty(), "{size:?} should lay out no rows");
    }
}

#[test]
fn a_narrow_track_labels_fewer_ticks_than_a_wide_one() {
    let wide = labels(900.0);
    let narrow = labels(150.0);

    assert_eq!(
        wide.len(),
        8,
        "a full-width track can label everything"
    );
    assert!(
        narrow.len() < wide.len(),
        "a narrow track must thin its labels"
    );
    // 0 dBFS is the reference; it is never the one dropped.
    assert_eq!(narrow.first(), Some(&0.0));
    assert_eq!(wide.first(), Some(&0.0));
}

#[test]
fn labels_never_collide() {
    for width in [60.0f32, 150.0, 400.0, 900.0] {
        let shown = labels(width);
        for pair in shown.windows(2) {
            // Labels run right to left: the louder tick of the pair is further right.
            let gap = (width * fraction(pair[0])) - (width * fraction(pair[1]));
            assert!(
                gap >= px(MIN_LABEL_SPACING),
                "width {width}: {:?} and {:?} are {gap} px apart",
                pair[0],
                pair[1]
            );
        }
    }
}

#[test]
fn state_follows_a_change_of_channel_count() {
    let mut state = MeterState::default();

    state.advance(&data(&[0.5, 0.5], &[0.2, 0.2], &[]), single(0.016));
    assert_eq!(state.holds.len(), 2);
    assert!((num(state.hold_dbfs(0)) - dbfs(0.5)).abs() < 1e-4);

    // Operator switches to an 8-channel interface: the new channels start at the
    // floor rather than inheriting channel 0's peak.
    state.advance(&data(&[0.0; 8], &[0.0; 8], &[]), single(0.016));
    assert_eq!(state.holds.len(), 8);
    assert_eq!(num(state.hold_dbfs(7)), px(FLOOR_DBFS));
    assert!(
        (num(state.hold_dbfs(0)) - dbfs(0.5)).abs() < 1e-4,
        "still dwelling"
    );
}

#[test]
fn ragged_input_slices_do_not_panic() {
    // The two buffers can disagree for a frame while the device is reconfiguring.
    let data = data(&[0.5, 0.25, 0.1], &[0.1], &[true]);
    assert_eq!(data.channels(), 3);
    assert_eq!(num(data.rms_dbfs(2)), px(FLOOR_DBFS), "missing RMS reads as silence");
    assert!(data.clipped(0));
    assert!(!data.clipped(2), "missing clip flags read as not clipped");

    let mut state = MeterState::default();
    state.advance(&data, single(0.016));
    assert_eq!(state.holds.len(), 3);
}

#[test]
fn a_stalled_frame_cannot_teleport_the_marker_to_the_floor() {
    // The clamp is applied in `update`; assert the constant it relies on is small
    // enough that a stall costs at most a sensible amount of fall.
    let worst_case_fall = px(MAX_FRAME_SECS) * px(PEAK_FALL_DB_PER_SEC);
    assert!(
        worst_case_fall < -px(FLOOR_DBFS),
        "a single stalled frame must not consume the whole scale"
    );
}

#[test]
fn redraws_go_on_while_a_marker_falls_and_stop_when_it_has() {
    let mut state = MeterState::default();
    let loud = data(&[0.5], &[0.2], &[]);
    let quiet = data(&[0.0], &[0.0], &[]);
    assert!(state.update(&loud, Instant { nanos: 0 }));
    // A stall of an hour is taken for half a second, all of it dwell.
    assert!(state.update(&quiet, Instant { nanos: 3_600_000_000_000 }));
    assert!((num(state.hold_dbfs(0)) - dbfs(0.5)).abs() < 1e-4);
    let mut t: i64 = 3_600_000_000_000;
    for _ in 0..40 {
        t += 400_000_000;
        state.update(&quiet, Instant { nanos: t });
    }
    assert_eq!(num(state.hold_dbfs(0)), px(FLOOR_DBFS));
    assert!(!state.update(&quiet, Instant { nanos: t + 1 }));
}

#[test]
fn the_picture_has_a_track_a_bar_a_marker_a_lamp_and_a_scale() {
    let d = data(&[0.9], &[0.5], &[true]);
    let mut state = MeterState::default();
    state.advance(&d, single(0.0));
    assert!(grid_fits(panel(1), 1));
    let shapes = draw(&d, &state, panel(1));
    assert!(matches!(shapes[0], Shape::Fill { paint: Paint::Track, .. }));
    // -6 dBFS reaches into the amber zone but not into the red one.
    assert!(matches!(
        shapes[1],
        Shape::Fill { paint: Paint::Level(Zone::Safe), .. }
    ));
    assert!(matches!(
        shapes[2],
        Shape::Fill { paint: Paint::Level(Zone::Caution), .. }
    ));
    // The marker at -0.9 dBFS is red though the bar is not.
    assert!(matches!(
        shapes[3],
        Shape::Fill { paint: Paint::Level(Zone::Danger), .. }
    ));
    // The clip lamp is lit, past the end of the track.
    match &shapes[4] {
        Shape::Fill { area, paint } => {
            assert_eq!(*paint, Paint::Level(Zone::Danger));
            assert_eq!(num(area.x), 900.0 - px(CLIP_STRIP_WIDTH));
        }
        other => panic!("{other:?}"),
    }
    match &shapes[5] {
        Shape::Label { text, anchor, .. } => {
            assert_eq!(text, "1");
            assert_eq!(*anchor, Anchor::RightMiddle);
        }
        other => panic!("{other:?}"),
    }
    let texts: Vec<String> = shapes
        .iter()
        .filter_map(|s| match s {
            Shape::Label {
                text,
                anchor: Anchor::TopCentre,
                ..
            } => Some(text.clone()),
            _ => None,
        })
        .collect();
    assert_eq!(texts, ["0", "-6", "-12", "-18", "-24", "-36", "-48", "-60"]);
    assert!(matches!(shapes.last(), Some(Shape::Outline { .. })));
    assert_eq!(ticks_dbfs().len(), 8);
}

#[test]
fn nothing_is_drawn_where_there_is_no_room() {
    let d = data(&[0.9], &[0.5], &[]);
    assert!(draw(&d, &MeterState::default(), size(10.0, 200.0)).is_empty());
    // A track thinner than a gridline cannot hold one.
    assert!(!grid_fits(size(32.5, 200.0), 1));
}
