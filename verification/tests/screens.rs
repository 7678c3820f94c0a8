use elastic_player::controller::{ElasticController, PitchTranspose, TrackMetadata};
use elastic_player::input::{PlayerState, UiSelection};
use elastic_player::layout::{centered_rect, Rect};
use elastic_player::screen::{can_draw, compose, draw, settings_width, Screen, Tint};
use elastic_player::time::Duration;

fn rect(x: u16, y: u16, width: u16, height: u16) -> Rect {
    Rect { x, y, width, height }
}

fn track(title: &str, secs: u64, tempo: f64) -> TrackMetadata {
    TrackMetadata {
        length: Duration::from_secs(secs),
        title: title.to_string(),
        controller: ElasticController::new(tempo.to_bits(), PitchTranspose::new(-3).unwrap()),
        loop_track: false,
    }
}

fn player(paused: bool, secs: u64) -> PlayerState {
    PlayerState {
        paused,
        pos: Duration::from_secs(secs),
        volume: 0.8f32.to_bits(),
    }
}

fn shown(area: Rect, p: &PlayerState, t: &TrackMetadata) -> Screen {
    assert!(can_draw(p, t));
    draw(area, p, t, UiSelection::Pitch)
}

fn expected_middle(width: u16, height: u16, area: Rect) -> Rect {
    let w = width.min(area.width);
    let h = height.min(area.height);
    rect(
        area.x + (area.width - w).div_ceil(2),
        area.y + (area.height - h).div_ceil(2),
        w,
        h,
    )
}

#[test]
fn boxes_go_in_the_middle() {
    assert_eq!(centered_rect(60, 5, rect(0, 0, 80, 24)), rect(10, 10, 60, 5));
    assert_eq!(centered_rect(60, 5, rect(0, 0, 81, 25)), rect(11, 10, 60, 5));
    assert_eq!(centered_rect(60, 5, rect(3, 4, 40, 2)), rect(3, 4, 40, 2));
    assert_eq!(centered_rect(60, 5, rect(0, 0, 0, 0)), rect(0, 0, 0, 0));
}

#[test]
fn boxes_of_all_sizes_go_in_the_middle() {
    for width in 0..140 {
        for height in [0, 1, 2, 4, 5, 6, 7, 8, 24, 25, 60] {
            let area = rect(0, 0, width, height);
            assert_eq!(centered_rect(60, 5, area), expected_middle(60, 5, area));
        }
    }
    for (w, h) in [(1, 1), (7, 3), (0, 0), (200, 1)] {
        let area = rect(5, 9, 100, 33);
        assert_eq!(centered_rect(w, h, area), expected_middle(w, h, area));
    }
    let area = rect(0, 0, 65535, 65535);
    assert_eq!(centered_rect(60, 5, area), expected_middle(60, 5, area));
}

#[test]
fn the_screen_has_three_rows() {
    let screen = shown(rect(0, 0, 80, 24), &player(false, 30), &track("song", 200, 1.5));
    assert_eq!(screen.outer, rect(10, 10, 60, 5));
    assert_eq!(screen.status.text, "playing");
    assert_eq!(screen.status.area, rect(12, 11, 7, 1));
    assert_eq!(screen.title.text, "song");
    assert_eq!(screen.title.area, rect(38, 11, 30, 1));
    assert_eq!(screen.gauge.label.text, "0:45 / 3:20");
    assert_eq!(screen.gauge.label.area, rect(12, 12, 56, 1));
    assert_eq!(screen.gauge.ratio, (45f64 / 200.0).to_bits());
    assert_eq!(screen.tempo.label.text, "Tempo: 1.50x");
    assert_eq!(screen.tempo.label.area, rect(12, 13, 12, 1));
    assert_eq!(screen.pitch.label.text, "Pitch: -3 ");
    assert_eq!(screen.pitch.label.area, rect(24, 13, 32, 1));
    assert_eq!(screen.volume.label.text, "Volume:  80%");
    assert_eq!(screen.volume.label.area, rect(56, 13, 12, 1));
    assert!(!screen.tempo.selected);
    assert!(screen.pitch.selected);
    assert!(!screen.volume.selected);
}

#[test]
fn one_setting_is_selected() {
    let (p, t) = (player(true, 0), track("song", 200, 1.0));
    let area = rect(0, 0, 80, 24);
    for selected in [UiSelection::Tempo, UiSelection::Pitch, UiSelection::Volume] {
        let screen = draw(area, &p, &t, selected);
        assert_eq!(screen.tempo.selected, selected == UiSelection::Tempo);
        assert_eq!(screen.pitch.selected, selected == UiSelection::Pitch);
        assert_eq!(screen.volume.selected, selected == UiSelection::Volume);
        assert_eq!(screen.status.text, "paused");
        for setting in [screen.tempo, screen.pitch, screen.volume] {
            let expected = if setting.selected { Tint::Cyan } else { Tint::DarkGray };
            assert_eq!(setting.tint(), expected);
        }
    }
}

#[test]
fn long_titles_are_cut() {
    let title = "a song with a title that is much too long to be shown in full";
    let screen = shown(rect(0, 0, 80, 24), &player(false, 0), &track(title, 200, 1.0));
    assert_eq!(screen.title.text, "a song with a title that is much too long to be…");
    assert_eq!(screen.title.text.chars().count(), 48);
    assert_eq!(screen.title.area, rect(20, 11, 48, 1));
}

#[test]
fn titles_are_placed_by_their_characters() {
    let screen = shown(rect(0, 0, 80, 24), &player(false, 0), &track("abc", 200, 1.0));
    assert_eq!(screen.title.text, "abc");
    assert_eq!(screen.title.area, rect(38, 11, 30, 1));
    let screen = shown(rect(0, 0, 80, 24), &player(false, 0), &track("練習曲", 200, 1.0));
    assert_eq!(screen.title.text, "練習曲");
    assert_eq!(screen.title.area, rect(38, 11, 30, 1));
}

#[test]
fn areas_at_the_far_right_are_drawn_too() {
    let area = rect(65475, 0, 60, 5);
    let screen = shown(area, &player(false, 30), &track("song", 200, 1.0));
    assert_eq!(screen.outer, area);
    assert_eq!(screen.gauge.label.area, rect(65477, 2, 56, 1));
    for area in [rect(65525, 0, 10, 5), rect(65532, 0, 3, 5), rect(65535, 0, 0, 5)] {
        let screen = shown(area, &player(false, 30), &track("song", 200, 1.0));
        assert_eq!(screen.outer, area);
    }
}

#[test]
fn nothing_goes_past_the_end() {
    let t = track("song", 200, 1.0);
    let screen = shown(rect(0, 0, 80, 24), &player(false, 250), &t);
    assert_eq!(screen.gauge.label.text, "3:20 / 3:20");
    assert_eq!(screen.gauge.ratio, 1f64.to_bits());
    let screen = shown(rect(0, 0, 80, 24), &player(false, 0), &t);
    assert_eq!(screen.gauge.label.text, "0:00 / 3:20");
    assert_eq!(screen.gauge.ratio, 0);
}

#[test]
fn every_position_fills_part_of_the_bar() {
    for nanos in [0, 1, 333_333_333, 999_999_999] {
        let mut t = track("song", 215, 1.0);
        t.length.nanos = nanos;
        for secs in 0..220 {
            for pos_nanos in [0, 1, 123_456_789, 999_999_999] {
                let pos = Duration { secs, nanos: pos_nanos };
                let p = PlayerState { paused: false, pos, volume: 0 };
                assert!(can_draw(&p, &t));
                let screen = draw(rect(0, 0, 80, 24), &p, &t, UiSelection::Tempo);
                let ratio = f64::from_bits(screen.gauge.ratio);
                assert!((0.0..=1.0).contains(&ratio));
            }
        }
    }
}

#[test]
fn a_track_without_length_is_not_shown() {
    assert!(!can_draw(&player(false, 0), &track("song", 0, 1.0)));
    assert!(!can_draw(&player(false, 1), &track("song", 10, -1.0)));
}

#[test]
fn small_screens_are_drawn_too() {
    let (p, t) = (player(false, 30), track("song", 200, 1.0));
    for width in 0..80 {
        for height in 0..8 {
            let screen = shown(rect(0, 0, width, height), &p, &t);
            assert_eq!(screen.outer, expected_middle(60, 5, rect(0, 0, width, height)));
            for area in [
                screen.gauge.label.area,
                screen.tempo.label.area,
                screen.pitch.label.area,
                screen.volume.label.area,
            ] {
                assert!(area.x + area.width <= width.max(2));
                assert!(area.y + area.height <= height.max(1));
            }
        }
    }
}

#[test]
fn rows_come_one_after_the_other() {
    let (p, t) = (player(false, 30), track("song", 200, 1.0));
    for width in 6..140 {
        let screen = shown(rect(0, 0, width, 24), &p, &t);
        let outer = screen.outer;
        assert_eq!(screen.status.area.y, outer.y + 1);
        assert_eq!(screen.gauge.label.area, rect(outer.x + 2, outer.y + 2, outer.width - 4, 1));
        assert_eq!(screen.tempo.label.area.y, outer.y + 3);
        if outer.width >= 28 {
            assert_eq!(screen.tempo.label.area, rect(outer.x + 2, outer.y + 3, 12, 1));
            assert_eq!(
                screen.pitch.label.area,
                rect(outer.x + 14, outer.y + 3, outer.width - 28, 1)
            );
            assert_eq!(
                screen.volume.label.area,
                rect(outer.x + outer.width - 14, outer.y + 3, 12, 1)
            );
        }
    }
}

fn is_inside(area: Rect, outer: Rect) -> bool {
    area.x >= outer.x
        && area.y >= outer.y
        && area.x + area.width <= outer.x + outer.width
        && area.y + area.height <= outer.y + outer.height
}

#[test]
fn nothing_leaves_the_box() {
    let (p, t) = (player(false, 30), track("a title that has no room", 200, 100.0));
    for width in 12..140 {
        for height in 0..12 {
            let area = rect(0, 0, width, height);
            let screen = shown(area, &p, &t);
            let outer = screen.outer;
            assert!(is_inside(outer, area));
            for part in [
                screen.title.area,
                screen.status.area,
                screen.gauge.label.area,
                screen.tempo.label.area,
                screen.pitch.label.area,
                screen.volume.label.area,
            ] {
                assert!(is_inside(part, outer), "{part:?} {outer:?}");
            }
        }
    }
}

#[test]
fn settings_are_as_wide_as_the_wider_one() {
    assert_eq!(settings_width(&player(false, 0), &track("song", 200, 1.0)), 12);
    assert_eq!(settings_width(&player(false, 0), &track("song", 200, 100.0)), 14);
}

#[test]
fn rows_can_be_given() {
    let rows = vec![rect(0, 0, 20, 1), rect(0, 1, 20, 1), rect(0, 2, 20, 1)];
    let footer = vec![rect(0, 2, 5, 1), rect(5, 2, 5, 1), rect(10, 2, 5, 1)];
    let (p, t) = (player(true, 30), track("a longer title", 200, 1.0));
    let screen = compose(rect(0, 0, 20, 3), &rows, &footer, &p, &t, UiSelection::Volume);
    assert_eq!(screen.title.text, "a longer ti…");
    assert_eq!(screen.title.area, rect(8, 0, 12, 1));
    assert_eq!(screen.volume.label.area, footer[2]);
    assert!(screen.volume.selected);
}
