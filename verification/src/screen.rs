//! What the player shows.

use crate::controller::{TrackMetadata, ONE};
use crate::float_model::{lemma_parts, Format};
use crate::input::{PlayerState, UiSelection};
use crate::layout::{bordered, centered_rect, fills, is_split, middle, split, Rect, Size};
use crate::tempo_text::{fixed_text, format_fixed, hundredths};
use crate::text::{
    cell_width, decimal, decimal_text, format_pitch, format_time, is_fitted, is_plain, padded_left,
    percent, pitch_text, plainly_fitted, time_text, truncate_with_ellipsis, volume_percent,
};
use crate::time::{lemma_total_determines, Duration};
use vstd::arithmetic::power2::{
    lemma2_to64, lemma_pow2_adds, lemma_pow2_pos, lemma_pow2_unfold, pow2,
};
use vstd::prelude::*;
use vstd::string::*;

verus! {

/// The size of the box that the player draws.
pub const BOX_WIDTH: u16 = 60;

pub const BOX_HEIGHT: u16 = 5;

/// The number of cells that the playing status takes.
pub const STATUS_WIDTH: u16 = 7;

/// A text and where it goes.
#[derive(Debug)]
pub struct Label {
    pub text: String,
    pub area: Rect,
}

/// A setting in the last row, and whether the arrow keys change it.
#[derive(Debug)]
pub struct Setting {
    pub label: Label,
    pub selected: bool,
}

/// The colour of a setting.
#[derive(Clone, Copy, PartialEq, Eq, Structural, Debug)]
pub enum Tint {
    Cyan,
    DarkGray,
}

impl Setting {
    /// The colour of the setting, which stands out if it is selected.
    pub fn tint(&self) -> (t: Tint)
        ensures
            t == (if self.selected {
                Tint::Cyan
            } else {
                Tint::DarkGray
            }),
    {
        if self.selected {
            Tint::Cyan
        } else {
            Tint::DarkGray
        }
    }
}

/// The seek bar: how much of it is filled, as the pattern of a floating-point number, and the
/// label on it.
#[derive(Debug)]
pub struct Gauge {
    pub ratio: u64,
    pub label: Label,
}

/// All that is on the screen.
#[derive(Debug)]
pub struct Screen {
    /// The border.
    pub outer: Rect,
    pub title: Label,
    pub status: Label,
    pub gauge: Gauge,
    pub tempo: Setting,
    pub pitch: Setting,
    pub volume: Setting,
}

/// The position in the track at its original speed, no further than its end, in nanoseconds.
pub open spec fn shown_position(player: PlayerState, track: TrackMetadata) -> nat {
    let pos = player.pos.times(track.controller.tempo_bits)->0;
    if track.length.total() < pos {
        track.length.total()
    } else {
        pos
    }
}

/// How much of the track has been played.
pub open spec fn shown_ratio(player: PlayerState, track: TrackMetadata) -> nat {
    Format::Double.quotient(
        Duration::of_total(shown_position(player, track)).seconds(),
        track.length.seconds(),
    )
}

/// Whether there is something to show: the position at the original speed exists, and the part
/// that has been played is between none and all. It is not for a track without length.
pub open spec fn can_show(player: PlayerState, track: TrackMetadata) -> bool {
    &&& player.pos.times(track.controller.tempo_bits) is Some
    &&& shown_ratio(player, track) <= ONE
}

pub open spec fn tempo_label(track: TrackMetadata) -> Seq<char> {
    seq!['T', 'e', 'm', 'p', 'o', ':', ' '] + fixed_text(track.controller.tempo_bits) + seq!['x']
}

pub open spec fn pitch_label(track: TrackMetadata) -> Seq<char> {
    seq!['P', 'i', 't', 'c', 'h', ':', ' '] + pitch_text(track.controller.transpose@)
}

pub open spec fn volume_label(player: PlayerState) -> Seq<char> {
    seq!['V', 'o', 'l', 'u', 'm', 'e', ':', ' '] + padded_left(
        decimal(percent(player.volume)),
        3,
        ' ',
    ) + seq!['%']
}

pub open spec fn status_label(player: PlayerState) -> Seq<char> {
    if player.paused {
        seq!['p', 'a', 'u', 's', 'e', 'd']
    } else {
        seq!['p', 'l', 'a', 'y', 'i', 'n', 'g']
    }
}

pub open spec fn gauge_label(player: PlayerState, track: TrackMetadata) -> Seq<char> {
    time_text(shown_position(player, track) / 1_000_000_000) + seq![' ', '/', ' '] + time_text(
        track.length.secs as nat,
    )
}

/// The width of the outer settings in the last row: that of the longer one.
pub open spec fn side_width(player: PlayerState, track: TrackMetadata) -> nat {
    let tempo = tempo_label(track).len();
    let volume = volume_label(player).len();
    if volume > tempo {
        volume
    } else {
        tempo
    }
}

/// The first row holds title and status, the second the seek bar, the third the settings.
pub open spec fn row_sizes() -> Seq<Size> {
    seq![Size::Length(1), Size::Length(1), Size::Length(1)]
}

/// The last row holds a setting at either side and one in between.
pub open spec fn footer_sizes(side: u16) -> Seq<Size> {
    seq![Size::Length(side), Size::Fill, Size::Length(side)]
}

/// How far a title of so many characters starts into its row: in the middle, but clear of the
/// status.
pub open spec fn title_start(row_width: u16, title_len: nat) -> int {
    let centered = if title_len < row_width {
        (row_width - title_len) / 2
    } else {
        0
    };
    if centered > STATUS_WIDTH + 1 {
        centered
    } else {
        STATUS_WIDTH + 1
    }
}

/// Where a title of so many characters goes in its row.
pub open spec fn title_area(row: Rect, title_len: nat) -> Rect {
    let start = title_start(row.width, title_len);
    Rect {
        x: (row.x + start) as u16,
        y: row.y,
        width: if start < row.width {
            (row.width - start) as u16
        } else {
            0
        },
        height: row.height,
    }
}

/// `screen` shows the state of player and track in the given rows.
pub open spec fn shows(
    screen: Screen,
    outer: Rect,
    rows: Seq<Rect>,
    footer: Seq<Rect>,
    player: PlayerState,
    track: TrackMetadata,
    selected: UiSelection,
) -> bool {
    let room = if rows[0].width > STATUS_WIDTH + 1 {
        rows[0].width - (STATUS_WIDTH + 1)
    } else {
        0
    };
    &&& screen.outer == outer
    &&& is_fitted(track.title@, room as nat, screen.title.text@)
    &&& cell_width(screen.title.text@) <= room
    &&& is_plain(track.title@) ==> screen.title.text@ == plainly_fitted(track.title@, room as nat)
    &&& screen.title.area == title_area(rows[0], screen.title.text@.len())
    &&& screen.status.text@ == status_label(player)
    &&& screen.status.area == (Rect { width: STATUS_WIDTH, ..rows[0] })
    &&& screen.gauge.ratio == shown_ratio(player, track)
    &&& screen.gauge.label.text@ == gauge_label(player, track)
    &&& screen.gauge.label.area == rows[1]
    &&& screen.tempo.label.text@ == tempo_label(track)
    &&& screen.tempo.label.area == footer[0]
    &&& screen.tempo.selected == (selected == UiSelection::Tempo)
    &&& screen.pitch.label.text@ == pitch_label(track)
    &&& screen.pitch.label.area == footer[1]
    &&& screen.pitch.selected == (selected == UiSelection::Pitch)
    &&& screen.volume.label.text@ == volume_label(player)
    &&& screen.volume.label.area == footer[2]
    &&& screen.volume.selected == (selected == UiSelection::Volume)
}

/// `rows` are the rows of a box in `outer`, and `footer` the parts of the last one.
pub open spec fn is_laid_out(outer: Rect, rows: Seq<Rect>, footer: Seq<Rect>, side: u16) -> bool {
    &&& is_split(true, 1, row_sizes(), outer.without_border(), rows)
    &&& is_split(false, 0, footer_sizes(side), rows[2], footer)
}

/// `screen` shows the state of player and track in a box in the middle of `area`.
pub open spec fn is_drawing(
    screen: Screen,
    area: Rect,
    player: PlayerState,
    track: TrackMetadata,
    selected: UiSelection,
) -> bool {
    let outer = middle(BOX_WIDTH, BOX_HEIGHT, area);
    let side = side_width(player, track) as u16;
    exists|rows: Seq<Rect>, footer: Seq<Rect>| #[trigger]
        is_laid_out(outer, rows, footer, side) && shows(
            screen,
            outer,
            rows,
            footer,
            player,
            track,
            selected,
        )
}

/// A number below two to the `b` has no more than `b` decimal digits.
proof fn lemma_decimal_len(n: nat, b: nat)
    requires
        n < pow2(b),
        b > 0,
    ensures
        decimal(n).len() <= b,
    decreases n,
{
    if n >= 10 {
        lemma2_to64();
        if b <= 3 {
            crate::float_rounding::lemma_pow2_ordered(b, 3);
        }
        lemma_pow2_unfold(b);
        assert(n / 10 < pow2((b - 1) as nat));
        lemma_decimal_len(n / 10, (b - 1) as nat);
    }
}

/// The label of the tempo is far shorter than the greatest width.
proof fn lemma_tempo_label_len(track: TrackMetadata)
    ensures
        tempo_label(track).len() <= 4000,
{
    let f: Format = Format::Double;
    let bits: u64 = track.controller.tempo_bits;
    let k: nat = f.magnitude(bits);
    let n: nat = hundredths(bits);
    if f.is_finite(bits) {
        lemma_parts(f, k);
        let t: nat = crate::float_model::exponent_part(f, k);
        let q: nat = crate::float_model::significand_part(f, k);
        lemma2_to64();
        vstd::arithmetic::power2::lemma2_to64_rest();
        assert(t <= 2046);
        crate::float_rounding::lemma_pow2_ordered(t, 2046);
        lemma_pow2_adds(60, 2046);
        lemma_pow2_unfold(2107);
        lemma_pow2_pos(2046);
        lemma_pow2_pos(1074);
        let one: nat = pow2(1074);
        let units: nat = f.units(k);
        let top: nat = pow2(2046);
        assert(units * 100 < pow2(60) * top) by (nonlinear_arith)
            requires
                units == q * pow2(t),
                pow2(t) <= top,
                q < 0x20_0000_0000_0000,
                pow2(60) == 0x1000_0000_0000_0000,
                top > 0,
        ;
        assert((units * 100) / one <= units * 100) by (nonlinear_arith)
            requires
                one >= 1,
                units * 100 >= 0,
        ;
        assert(n <= units * 100 + 1);
        assert(n < pow2(2107));
        assert(n / 100 <= n);
        lemma_decimal_len(n / 100, 2107);
        crate::float_rounding::lemma_pow2_ordered(7, 60);
        lemma_decimal_len(n % 100, 7);
    }
}

/// The text of the tempo setting.
fn tempo_setting(track: &TrackMetadata) -> (s: String)
    ensures
        s@ == tempo_label(*track),
{
    proof {
        reveal_strlit("Tempo: ");
        reveal_strlit("x");
    }
    let mut s: String = "Tempo: ".to_owned();
    s.append(format_fixed(track.controller.tempo()).as_str());
    s.append("x");
    assert(s@ =~= tempo_label(*track));
    s
}

/// The text of the pitch setting.
fn pitch_setting(track: &TrackMetadata) -> (s: String)
    ensures
        s@ == pitch_label(*track),
{
    proof {
        reveal_strlit("Pitch: ");
    }
    let mut s: String = "Pitch: ".to_owned();
    s.append(format_pitch(track.controller.pitch().get()).as_str());
    assert(s@ =~= pitch_label(*track));
    s
}

/// The text of the volume setting.
fn volume_setting(player: &PlayerState) -> (s: String)
    ensures
        s@ == volume_label(*player),
        s@.len() == 12,
{
    proof {
        reveal_strlit("Volume: ");
        reveal_strlit(" ");
        reveal_strlit("  ");
        reveal_strlit("%");
        reveal_with_fuel(decimal, 3);
    }
    let mut s: String = "Volume: ".to_owned();
    let p: u8 = volume_percent(player.volume);
    if p < 10 {
        s.append("  ");
    } else if p < 100 {
        s.append(" ");
    }
    s.append(decimal_text(p as u64).as_str());
    s.append("%");
    assert(s@ =~= volume_label(*player));
    s
}

/// The text on the seek bar.
fn gauge_text(pos: Duration, track: &TrackMetadata) -> (s: String)
    ensures
        s@ == time_text(pos.secs as nat) + seq![' ', '/', ' '] + time_text(
            track.length.secs as nat,
        ),
{
    proof {
        reveal_strlit(" / ");
    }
    let mut s: String = format_time(pos.secs);
    s.append(" / ");
    s.append(format_time(track.length.secs).as_str());
    assert(s@ =~= time_text(pos.secs as nat) + seq![' ', '/', ' '] + time_text(
        track.length.secs as nat,
    ));
    s
}

/// Whether there is something to show.
pub fn can_draw(player: &PlayerState, track: &TrackMetadata) -> (r: bool)
    requires
        player.pos.wf(),
        track.length.wf(),
    ensures
        r == can_show(*player, *track),
{
    match track.controller.try_duration_from_tempo(player.pos) {
        Some(played) => {
            let pos: Duration = played.min(track.length);
            proof {
                lemma_total_determines(pos, pos);
            }
            Format::Double.div(pos.to_seconds(), track.length.to_seconds()) <= ONE
        },
        None => false,
    }
}

/// The width of the outer settings in the last row.
pub fn settings_width(player: &PlayerState, track: &TrackMetadata) -> (n: u16)
    ensures
        n == side_width(*player, *track),
{
    proof {
        lemma_tempo_label_len(*track);
    }
    let tempo: usize = tempo_setting(track).as_str().unicode_len();
    let volume: usize = volume_setting(player).as_str().unicode_len();
    if volume > tempo {
        volume as u16
    } else {
        tempo as u16
    }
}

/// Fills the given rows with the state of player and track.
pub fn compose(
    outer: Rect,
    rows: &Vec<Rect>,
    footer: &Vec<Rect>,
    player: &PlayerState,
    track: &TrackMetadata,
    selected: UiSelection,
) -> (screen: Screen)
    requires
        rows@.len() == 3,
        footer@.len() == 3,
        rows@[0].x + rows@[0].width / 2 <= 65535,
        rows@[0].x + STATUS_WIDTH + 1 <= 65535,
        player.pos.wf(),
        track.length.wf(),
        can_show(*player, *track),
    ensures
        shows(screen, outer, rows@, footer@, *player, *track, selected),
{
    let row: Rect = rows[0];
    // the title, in the middle of the first row
    let room: u16 = if row.width > STATUS_WIDTH + 1 {
        row.width - (STATUS_WIDTH + 1)
    } else {
        0
    };
    let title: String = truncate_with_ellipsis(track.title.as_str(), room as usize);
    let title_len: usize = title.as_str().unicode_len();
    let centered: u16 = if title_len < row.width as usize {
        (row.width - title_len as u16) / 2
    } else {
        0
    };
    let start: u16 = if centered > STATUS_WIDTH + 1 {
        centered
    } else {
        STATUS_WIDTH + 1
    };
    let title_area: Rect = Rect {
        x: row.x + start,
        y: row.y,
        width: if start < row.width {
            row.width - start
        } else {
            0
        },
        height: row.height,
    };
    // the status, at its left
    proof {
        reveal_strlit("paused");
        reveal_strlit("playing");
    }
    let status: String = if player.paused {
        "paused".to_owned()
    } else {
        "playing".to_owned()
    };
    assert(status@ =~= status_label(*player));
    let status_area: Rect = Rect {
        x: row.x,
        y: row.y,
        width: STATUS_WIDTH,
        height: row.height,
    };
    // the seek bar, in the second row
    let pos: Duration = track.controller.duration_from_tempo(player.pos).min(track.length);
    proof {
        lemma_total_determines(pos, pos);
    }
    let ratio: u64 = Format::Double.div(pos.to_seconds(), track.length.to_seconds());
    let gauge: Gauge = Gauge {
        ratio,
        label: Label { text: gauge_text(pos, track), area: rows[1] },
    };
    // the settings, in the third row
    let tempo: Setting = Setting {
        label: Label { text: tempo_setting(track), area: footer[0] },
        selected: selected == UiSelection::Tempo,
    };
    let pitch: Setting = Setting {
        label: Label { text: pitch_setting(track), area: footer[1] },
        selected: selected == UiSelection::Pitch,
    };
    let volume: Setting = Setting {
        label: Label { text: volume_setting(player), area: footer[2] },
        selected: selected == UiSelection::Volume,
    };
    Screen {
        outer,
        title: Label { text: title, area: title_area },
        status: Label { text: status, area: status_area },
        gauge,
        tempo,
        pitch,
        volume,
    }
}

/// Lays the state of player and track out on a screen: a box in its middle, with three rows.
pub fn draw(
    area: Rect,
    player: &PlayerState,
    track: &TrackMetadata,
    selected: UiSelection,
) -> (screen: Screen)
    requires
        area.wf(),
        area.width >= 4 ==> area.x + STATUS_WIDTH + 3 <= 65535,
        player.pos.wf(),
        track.length.wf(),
        can_show(*player, *track),
    ensures
        is_drawing(screen, area, *player, *track, selected),
{
    let outer: Rect = centered_rect(BOX_WIDTH, BOX_HEIGHT, area);
    let inner: Rect = bordered(outer);
    let row_sizes: Vec<Size> = vec![Size::Length(1), Size::Length(1), Size::Length(1)];
    proof {
        reveal_with_fuel(fills, 4);
    }
    assert(row_sizes@ =~= self::row_sizes());
    let rows: Vec<Rect> = split(true, 1, &row_sizes, inner);
    let side: u16 = settings_width(player, track);
    let footer_sizes: Vec<Size> = vec![Size::Length(side), Size::Fill, Size::Length(side)];
    assert(footer_sizes@ =~= self::footer_sizes(side));
    let footer: Vec<Rect> = split(false, 0, &footer_sizes, rows[2]);
    let screen: Screen = compose(outer, &rows, &footer, player, track, selected);
    assert(is_laid_out(
        middle(BOX_WIDTH, BOX_HEIGHT, area),
        rows@,
        footer@,
        side_width(*player, *track) as u16,
    ));
    screen
}

} // verus!
