//! What holds of the screen as a whole.

use crate::accuracy::{lemma_rounds_below, lemma_second, lemma_seconds_close, second};
use crate::controller::{TrackMetadata, ONE};
use crate::float_model::{lemma_nearest_of_units, lemma_units_increase, Format};
use crate::input::{PlayerState, UiSelection};
use crate::layout::{asked_before, fills, granted_before, middle, Rect, Size};
use crate::position_laws::{lemma_one, lemma_quotient_is, lemma_seconds_ordered};
use crate::screen::{
    can_show, is_drawing, is_laid_out, row_sizes, shown_position, shown_ratio, shows, side_width,
    title_area, Screen, BOX_HEIGHT, BOX_WIDTH, STATUS_WIDTH,
};
use crate::time::Duration;
use vstd::prelude::*;

verus! {

/// A track that takes time takes a positive number of seconds.
proof fn lemma_seconds_positive(d: Duration)
    requires
        d.wf(),
        d.total() > 0,
    ensures
        0 < d.seconds() < Format::Double.infinity(),
{
    let one: nat = second();
    lemma_second();
    lemma_seconds_close(d);
    if d.seconds() == 0 {
        assert(Format::Double.units(0) == 0);
        assert(d.total() * one >= one) by (nonlinear_arith)
            requires
                d.total() >= 1,
        ;
    }
}

/// A track that has any length can always be shown: the part of it that has been played is
/// between none and all, wherever the player stands.
pub proof fn law_a_track_can_be_shown(player: PlayerState, track: TrackMetadata)
    requires
        track.length.wf(),
        track.length.total() > 0,
        player.pos.times(track.controller.tempo_bits) is Some,
    ensures
        can_show(player, track),
{
    let f: Format = Format::Double;
    let length: Duration = track.length;
    let pos: Duration = Duration::of_total(shown_position(player, track));
    assert(pos.wf() && pos.total() == shown_position(player, track));
    lemma_seconds_positive(length);
    lemma_seconds_ordered(pos, length);
    lemma_quotient_is(pos.seconds(), length.seconds());
    lemma_one();
    let up: nat = f.units(pos.seconds() as nat);
    let ul: nat = f.units(length.seconds() as nat);
    if pos.seconds() < length.seconds() {
        lemma_units_increase(f, pos.seconds() as nat, length.seconds() as nat);
    }
    assert(up * second() <= second() * ul) by (nonlinear_arith)
        requires
            up <= ul,
    ;
    lemma_rounds_below(f, up * second(), ul, ONE as nat);
}

/// The seek bar is empty at the start of the track and full from its end on.
pub proof fn law_seek_bar_ends(player: PlayerState, track: TrackMetadata)
    requires
        track.length.wf(),
        track.length.total() > 0,
        player.pos.times(track.controller.tempo_bits) is Some,
    ensures
        player.pos.times(track.controller.tempo_bits) == Some(0nat) ==> shown_ratio(player, track)
            == 0,
        player.pos.times(track.controller.tempo_bits)->0 >= track.length.total() ==> shown_ratio(
            player,
            track,
        ) == ONE,
{
    let f: Format = Format::Double;
    let length: Duration = track.length;
    let one: nat = second();
    lemma_seconds_positive(length);
    lemma_second();
    let ul: nat = f.units(length.seconds() as nat);
    lemma_units_increase(f, 0, length.seconds() as nat);
    if player.pos.times(track.controller.tempo_bits)->0 >= length.total() {
        let pos: Duration = Duration::of_total(shown_position(player, track));
        crate::time::lemma_total_determines(pos, length);
        lemma_quotient_is(length.seconds(), length.seconds());
        lemma_one();
        lemma_nearest_of_units(f, ul, ONE as nat);
        assert(ul * one == one * ul) by (nonlinear_arith);
    }
    if player.pos.times(track.controller.tempo_bits) == Some(0nat) {
        let pos: Duration = Duration::of_total(0);
        lemma_seconds_close(pos);
        lemma_quotient_is(0, length.seconds());
        assert(f.units(0) == 0);
        lemma_nearest_of_units(f, ul, 0);
        assert(0 * one == 0 && 0 * ul == 0) by (nonlinear_arith);
    }
}

/// The title and the status in a row of at least eight cells stay within it.
proof fn lemma_title_stays_in_row(row: Rect, title_len: nat)
    requires
        row.wf(),
        row.width >= 8,
    ensures
        title_area(row, title_len).inside(row),
        (Rect { width: STATUS_WIDTH, ..row }).inside(row),
{
}

/// On a screen at least twelve cells wide, all that is drawn stays inside the border, which
/// stays on the screen. With five cells of height there are three rows, one below the other.
pub proof fn law_drawing_stays_in_its_box(
    screen: Screen,
    area: Rect,
    player: PlayerState,
    track: TrackMetadata,
    selected: UiSelection,
)
    requires
        area.wf(),
        area.width >= 12,
        is_drawing(screen, area, player, track, selected),
    ensures
        ({
            let inner = screen.outer.without_border();
            &&& screen.outer.inside(area)
            &&& inner.inside(screen.outer)
            &&& screen.title.area.inside(inner)
            &&& screen.status.area.inside(inner)
            &&& screen.gauge.label.area.inside(inner)
            &&& screen.tempo.label.area.inside(inner)
            &&& screen.pitch.label.area.inside(inner)
            &&& screen.volume.label.area.inside(inner)
            &&& area.height >= 5 ==> {
                &&& screen.title.area.y == inner.y
                &&& screen.status.area.y == inner.y
                &&& screen.gauge.label.area.y == inner.y + 1
                &&& screen.tempo.label.area.y == inner.y + 2
                &&& screen.pitch.label.area.y == inner.y + 2
                &&& screen.volume.label.area.y == inner.y + 2
            }
        }),
{
    let outer: Rect = middle(BOX_WIDTH, BOX_HEIGHT, area);
    let inner: Rect = outer.without_border();
    let side: u16 = side_width(player, track) as u16;
    let (rows, footer): (Seq<Rect>, Seq<Rect>) = choose|rows: Seq<Rect>, footer: Seq<Rect>|
        #[trigger] is_laid_out(outer, rows, footer, side) && shows(
            screen,
            outer,
            rows,
            footer,
            player,
            track,
            selected,
        );
    assert(is_laid_out(outer, rows, footer, side));
    let margin: Rect = inner.without_margin(1);
    assert(outer.width >= 12 && inner.width >= 10 && margin.width >= 8);
    assert forall|i: int| 0 <= i < 3 implies (#[trigger] rows[i]).inside(margin) && rows[i].width
        == margin.width by {
        assert(rows[i].start(false) == margin.start(false));
    }
    assert forall|i: int| 0 <= i < 3 implies (#[trigger] footer[i]).inside(rows[2])
        && footer[i].y == rows[2].y by {
        assert(rows[2].without_margin(0) == rows[2]);
        assert(footer[i].start(true) == rows[2].start(true));
    }
    lemma_title_stays_in_row(rows[0], screen.title.text@.len());
    if area.height >= 5 {
        let sizes: Seq<Size> = row_sizes();
        reveal_with_fuel(asked_before, 4);
        reveal_with_fuel(granted_before, 4);
        reveal_with_fuel(fills, 4);
        assert(sizes.drop_last() =~= seq![Size::Length(1), Size::Length(1)]);
        assert(seq![Size::Length(1), Size::Length(1)].drop_last() =~= seq![Size::Length(1)]);
        assert(seq![Size::Length(1)].drop_last() =~= Seq::<Size>::empty());
        assert(margin.height == 3);
        assert(asked_before(sizes, 3, 3) == 3);
        assert(rows[0].start(true) == margin.start(true));
        assert(rows[1].start(true) == margin.start(true) + 1);
        assert(rows[2].start(true) == margin.start(true) + 2);
    }
}

} // verus!
