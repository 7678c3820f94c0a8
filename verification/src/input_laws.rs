//! What holds of the key bindings as a whole.

use crate::accuracy::{
    distance, lemma_exact, lemma_last_place, lemma_rounds_above, lemma_rounds_below,
    lemma_second, lemma_seconds_parts, lemma_sum_of_numbers, second,
};
use crate::controller::TrackMetadata;
use crate::float_model::{
    lemma_nearest_exists, lemma_units_increase, lemma_units_of_parts, Format,
};
use crate::input::{
    commands_of, length_at_tempo, moved_by_tempo, pitch_change, result_of, seek_change,
    selection_after, start, tempo_change, times_exist, volume_change, Command, InputResult, Key,
    KeyEvent, PlayerState, UiSelection, SEEK_SECS, TEMPO_CEILING, TEMPO_DOWN, TEMPO_FLOOR, TEMPO_UP,
    VOLUME_CEILING, VOLUME_DOWN,
};
use crate::position_laws::lemma_last_place_below;
use crate::tempo_laws::is_tempo;
use crate::time::Duration;
use vstd::arithmetic::power2::{
    lemma2_to64, lemma2_to64_rest, lemma_pow2_adds, lemma_pow2_pos, pow2,
};
use vstd::prelude::*;

verus! {

/// Going round forward and backward undo each other, and three steps either way lead back.
pub proof fn law_selection_goes_round(selected: UiSelection)
    ensures
        selection_after(Key::BackTab, selection_after(Key::Tab, selected)) == selected,
        selection_after(Key::Tab, selection_after(Key::BackTab, selected)) == selected,
        selection_after(
            Key::Tab,
            selection_after(Key::Tab, selection_after(Key::Tab, selected)),
        ) == selected,
        selection_after(
            Key::BackTab,
            selection_after(Key::BackTab, selection_after(Key::BackTab, selected)),
        ) == selected,
        selection_after(Key::Tab, selected) != selected,
{
}

/// The arrow keys move pitch by a semitone and undo each other, and never leave the octave.
pub proof fn law_pitch_steps(semitones: int)
    requires
        -12 <= semitones <= 12,
    ensures
        ({
            let up = pitch_change(Key::Up, UiSelection::Pitch, semitones);
            let down = pitch_change(Key::Down, UiSelection::Pitch, semitones);
            &&& up is None <==> semitones == 12
            &&& down is None <==> semitones == -12
            &&& up is Some ==> up->0 <= 12 && pitch_change(Key::Down, UiSelection::Pitch, up->0)
                == Some(semitones)
            &&& down is Some ==> down->0 >= -12 && pitch_change(
                Key::Up,
                UiSelection::Pitch,
                down->0,
            ) == Some(semitones)
        }),
{
}

/// A key changes no setting but the one that is selected, and only the up and down keys change
/// one at all.
pub proof fn law_only_the_selected_setting_changes(
    key: Key,
    selected: UiSelection,
    tempo: u64,
    semitones: int,
    volume: u32,
)
    ensures
        tempo_change(key, selected, tempo) is Some ==> selected == UiSelection::Tempo,
        pitch_change(key, selected, semitones) is Some ==> selected == UiSelection::Pitch,
        volume_change(key, selected, volume) is Some ==> selected == UiSelection::Volume,
        key != Key::Up && key != Key::Down ==> {
            &&& tempo_change(key, selected, tempo) is None
            &&& pitch_change(key, selected, semitones) is None
            &&& volume_change(key, selected, volume) is None
        },
{
}

/// A key that means nothing, or that quits, changes nothing.
pub proof fn law_unhandled_keys_change_nothing(
    key: Key,
    selected: UiSelection,
    player: PlayerState,
    track: TrackMetadata,
)
    requires
        result_of(key, selected, player, track) != InputResult::Handled,
    ensures
        commands_of(key, selected, player, track).len() == 0,
        selection_after(key, selected) == selected,
        tempo_change(key, selected, track.controller.tempo_bits) is None,
        pitch_change(key, selected, track.controller.transpose@) is None,
        volume_change(key, selected, player.volume) is None,
{
}

/// The seek keys stay within the track, which begins at zero and ends at its length at tempo, and
/// move by no more than their step.
pub proof fn law_seeks_stay_within_the_track(key: Key, player: PlayerState, track: TrackMetadata)
    requires
        length_at_tempo(track) is Some,
        player.pos.total() <= length_at_tempo(track)->0,
        seek_change(key, player, track) is Some,
    ensures
        seek_change(key, player, track)->0 <= length_at_tempo(track)->0,
        key == Key::Left || key == Key::Right ==> distance(
            seek_change(key, player, track)->0,
            player.pos.total(),
        ) <= SEEK_SECS * 1_000_000_000,
{
}

/// The play key on a track that has come to its end starts it over.
pub proof fn law_play_restarts_at_the_end(
    selected: UiSelection,
    player: PlayerState,
    track: TrackMetadata,
)
    requires
        player.paused,
        length_at_tempo(track) is Some,
    ensures
        commands_of(Key::Char(' '), selected, player, track).last() == Command::Play,
        commands_of(Key::Char(' '), selected, player, track).contains(Command::Seek(start()))
            <==> player.pos.total() >= length_at_tempo(track)->0,
{
    let commands: Seq<Command> = commands_of(Key::Char(' '), selected, player, track);
    if player.pos.total() >= length_at_tempo(track)->0 {
        assert(commands[0] == Command::Seek(start()));
    }
}

/// The units of the numbers that the tempo keys work with, as multiples of one power of two.
pub proof fn lemma_tempo_numbers()
    ensures
        ({
            let f = Format::Double;
            let p = pow2(1017);
            &&& p > 0
            &&& f.units(f.magnitude(TEMPO_UP)) == 0x19_9999_9999_999a * p
            &&& f.units(f.magnitude(TEMPO_DOWN)) == 0x19_9999_9999_999a * p
            &&& f.units(TEMPO_FLOOR as nat) == 0x4c_cccc_cccc_cccc * p
            &&& f.units(TEMPO_CEILING as nat) == 0x400_0000_0000_0000 * p
            &&& f.units(0x3fb9_9999_9999_9999) == 0x33_3333_3333_3332 * p
            &&& f.units(0x4000_6666_6666_6666) == 0x419_9999_9999_9980 * p
            &&& f.units(0x4000_6666_6666_6667) == 0x419_9999_9999_99c0 * p
            &&& f.units(0x3fb0_0000_0000_0000) == 0x20_0000_0000_0000 * p
        }),
{
    let f: Format = Format::Double;
    let p: nat = pow2(1017);
    lemma_pow2_pos(1017);
    lemma2_to64();
    lemma_pow2_adds(1, 1017);
    lemma_pow2_adds(2, 1017);
    lemma_pow2_adds(6, 1017);
    lemma_units_of_parts(f, 1017, 0x19_9999_9999_999a);
    lemma_units_of_parts(f, 1019, 0x13_3333_3333_3333);
    lemma_units_of_parts(f, 1023, 0x10_0000_0000_0000);
    lemma_units_of_parts(f, 1018, 0x19_9999_9999_9999);
    lemma_units_of_parts(f, 1023, 0x10_6666_6666_6666);
    lemma_units_of_parts(f, 1023, 0x10_6666_6666_6667);
    lemma_units_of_parts(f, 1018, 0x10_0000_0000_0000);
    assert(0x13_3333_3333_3333 * (4 * p) == 0x4c_cccc_cccc_cccc * p) by (nonlinear_arith);
    assert(0x10_0000_0000_0000 * (0x40 * p) == 0x400_0000_0000_0000 * p) by (nonlinear_arith);
    assert(0x19_9999_9999_9999 * (2 * p) == 0x33_3333_3333_3332 * p) by (nonlinear_arith);
    assert(0x10_6666_6666_6666 * (0x40 * p) == 0x419_9999_9999_9980 * p) by (nonlinear_arith);
    assert(0x10_6666_6666_6667 * (0x40 * p) == 0x419_9999_9999_99c0 * p) by (nonlinear_arith);
    assert(0x10_0000_0000_0000 * (2 * p) == 0x20_0000_0000_0000 * p) by (nonlinear_arith);
}

/// The up key raises the tempo, to at most 2.05, and the down key lowers it, to no less than
/// 0.09999999999999999, whatever positive tempo the player was started with. (A tempo over two to
/// the forty-nine is too coarse to be lowered by so little.)
pub proof fn law_tempo_keeps_its_range(key: Key, selected: UiSelection, tempo: u64)
    requires
        is_tempo(tempo),
        tempo_change(key, selected, tempo) is Some,
    ensures
        is_tempo(tempo_change(key, selected, tempo)->0),
        key == Key::Up ==> tempo < tempo_change(key, selected, tempo)->0 <= 0x4000_6666_6666_6666,
        key == Key::Down ==> 0x3fb9_9999_9999_9999 <= tempo_change(key, selected, tempo)->0
            <= tempo,
        key == Key::Down && tempo <= 0x4300_0000_0000_0000 ==> tempo_change(
            key,
            selected,
            tempo,
        )->0 < tempo,
        key == Key::Up || key == Key::Down,
{
    let f: Format = Format::Double;
    let p: nat = pow2(1017);
    let u: nat = f.units(tempo as nat);
    let step: nat = f.units(f.magnitude(TEMPO_UP));
    lemma_tempo_numbers();
    lemma_units_increase(f, 0, tempo as nat);
    lemma_last_place(f, tempo as nat);
    lemma_last_place(f, (tempo - 1) as nat);
    if key == Key::Up {
        let sum: nat = u + step;
        assert(f.sum(tempo, TEMPO_UP) == f.nearest(sum, 1));
        lemma_nearest_exists(f, sum, 1);
        let top: nat = 0x4000_6666_6666_6666;
        assert((f.units(top) + f.units(top + 1)) * 1 == f.units(top) + f.units(top + 1));
        if f.nearest(sum, 1) > top {
            let k: nat = f.nearest(sum, 1);
            assert((f.units((k - 1) as nat) + f.units(k)) * 1 == f.units((k - 1) as nat) + f.units(
                k,
            ));
            if k > top + 1 {
                lemma_units_increase(f, top, (k - 1) as nat);
                lemma_units_increase(f, top + 1, k);
            }
        }
        lemma_rounds_above(f, sum, 1, (tempo + 1) as nat);
    } else {
        assert(u > f.units(TEMPO_FLOOR as nat));
        let rest: nat = (u - step) as nat;
        assert(f.value(tempo) + f.value(TEMPO_DOWN) == rest);
        assert(f.sum(tempo, TEMPO_DOWN) == f.nearest(rest, 1));
        lemma_rounds_above(f, rest, 1, 0x3fb9_9999_9999_9999);
        lemma_rounds_below(f, rest, 1, tempo as nat);
        if tempo <= 0x4300_0000_0000_0000 {
            let v: nat = f.units((tempo - 1) as nat);
            lemma_units_of_parts(f, 1071, 0x10_0000_0000_0000);
            lemma_pow2_adds(52, 1071);
            lemma_pow2_adds(53, 1017);
            lemma2_to64_rest();
            lemma_units_increase(f, (tempo - 1) as nat, 0x4300_0000_0000_0000);
            lemma_last_place_below((tempo - 1) as nat, 1123);
            lemma_nearest_exists(f, rest, 1);
            assert((v + u) * 1 == v + u);
        }
    }
}

/// The up key raises the volume, to at most 2.1000003, and the down key lowers it, to no less
/// than minus the step.
pub proof fn law_volume_keeps_its_range(key: Key, selected: UiSelection, volume: u32)
    requires
        Format::Single.is_finite(volume as u64),
        volume_change(key, selected, volume) is Some,
    ensures
        ({
            let f = Format::Single;
            let new = volume_change(key, selected, volume)->0 as u64;
            &&& f.is_finite(new)
            &&& key == Key::Up ==> f.value(volume as u64) <= f.value(new) <= f.value(0x4006_6667)
            &&& key == Key::Down ==> f.value(VOLUME_DOWN as u64) <= f.value(new) <= f.value(
                volume as u64,
            )
            &&& key == Key::Up || key == Key::Down
        }),
{
    let f: Format = Format::Single;
    let v: u64 = volume as u64;
    let p: nat = pow2(122);
    let u: nat = f.units(f.magnitude(v));
    let step: nat = f.units(0x3dcc_cccd);
    lemma_pow2_pos(122);
    lemma_pow2_adds(5, 122);
    lemma2_to64();
    lemma_units_of_parts(f, 122, 0xcc_cccd);
    lemma_units_of_parts(f, 127, 0x80_0000);
    lemma_units_of_parts(f, 127, 0x86_6667);
    assert(0x80_0000 * (32 * p) == 0x1000_0000 * p) by (nonlinear_arith);
    assert(0x86_6667 * (32 * p) == 0x10cc_cce0 * p) by (nonlinear_arith);
    if key == Key::Up {
        let exact: int = f.value(v) + step;
        assert(f.units(0x4000_0000) == 0x1000_0000 * p);
        assert(step == 0xcc_cccd * p);
        assert(f.value(VOLUME_CEILING as u64) == f.units(0x4000_0000));
        assert(f.units(0x4006_6667) == 0x10cc_cce0 * p);
        assert(exact <= f.units(0x4006_6667));
        if exact > 0 {
            lemma_rounds_below(f, exact as nat, 1, 0x4006_6667);
            if !f.is_negative(v) {
                lemma_rounds_above(f, exact as nat, 1, f.magnitude(v));
            }
        } else if exact < 0 {
            lemma_rounds_below(f, (-exact) as nat, 1, f.magnitude(v));
        }
    } else {
        let exact: int = f.value(v) - step;
        assert(f.value(VOLUME_DOWN as u64) == -(step as int));
        if exact > 0 {
            lemma_rounds_below(f, exact as nat, 1, f.magnitude(v));
        } else if exact < 0 {
            lemma_rounds_below(f, (-exact) as nat, 1, 0x3dcc_cccd);
        }
    }
}

/// A span of less than two to the fifty-eight seconds is not taken for many more.
pub proof fn lemma_seconds_bounded(d: Duration)
    requires
        d.wf(),
        d.secs < 0x400_0000_0000_0000,
    ensures
        d.seconds() < Format::Double.infinity(),
        Format::Double.units(d.seconds() as nat) <= 0x800_0000_0000_0000 * second(),
{
    let f: Format = Format::Double;
    let one: nat = second();
    lemma_second();
    lemma_seconds_parts(d);
    let s: nat = f.whole(d.secs as nat);
    let q: nat = f.quotient(f.whole(d.nanos as nat) as u64, f.whole(1_000_000_000) as u64);
    lemma_sum_of_numbers(s as u64, q as u64);
    let low: nat = lemma_exact(f, 0x4, 1130);
    let high: nat = lemma_exact(f, 0x8, 1130);
    lemma_pow2_adds(56, 1074);
    lemma2_to64_rest();
    assert(4 * pow2(1130) == 0x400_0000_0000_0000 * one) by (nonlinear_arith)
        requires
            pow2(1130) == 0x100_0000_0000_0000 * one,
    ;
    assert(8 * pow2(1130) == 0x800_0000_0000_0000 * one) by (nonlinear_arith)
        requires
            pow2(1130) == 0x100_0000_0000_0000 * one,
    ;
    assert(d.secs * one <= 0x400_0000_0000_0000 * one) by (nonlinear_arith)
        requires
            d.secs <= 0x400_0000_0000_0000,
    ;
    lemma_rounds_below(f, (d.secs * one) as nat, 1, low);
    lemma_rounds_below(f, f.units(s) + f.units(q), 1, high);
}

/// A number of seconds below two to the sixty-four is a span.
pub proof fn lemma_is_span(k: nat, bound: nat)
    requires
        k <= Format::Double.infinity(),
        Format::Double.units(k) <= bound * second(),
        bound < 0x1_0000_0000_0000_0000,
    ensures
        crate::time::nanos_of_seconds(k as u64) is Some,
{
    lemma2_to64();
    lemma_second();
    let one: nat = second();
    assert(bound * one < pow2(64) * one) by (nonlinear_arith)
        requires
            bound < pow2(64),
            one > 0,
    ;
}

/// A length at a tempo of at least one sixteenth is a span.
pub proof fn lemma_divided_exists(d: Duration, tempo: u64)
    requires
        d.wf(),
        d.secs < 0x400_0000_0000_0000,
        0x3fb0_0000_0000_0000 <= tempo < Format::Double.infinity(),
    ensures
        d.divided(tempo) is Some,
{
    let f: Format = Format::Double;
    let one: nat = second();
    lemma_seconds_bounded(d);
    lemma_second();
    let us: nat = f.units(d.seconds() as nat);
    let ut: nat = f.units(tempo as nat);
    lemma_tempo_numbers();
    if tempo > 0x3fb0_0000_0000_0000 {
        lemma_units_increase(f, 0x3fb0_0000_0000_0000, tempo as nat);
    }
    lemma_pow2_adds(57, 1017);
    lemma2_to64_rest();
    assert(16 * ut >= one);
    let top: nat = lemma_exact(f, 0x80, 1130);
    lemma_pow2_adds(56, 1074);
    assert(0x80 * pow2(1130) == 0x8000_0000_0000_0000 * one) by (nonlinear_arith)
        requires
            pow2(1130) == 0x100_0000_0000_0000 * one,
    ;
    assert(us * one <= f.units(top) * ut) by (nonlinear_arith)
        requires
            us <= 0x800_0000_0000_0000 * one,
            f.units(top) == 0x8000_0000_0000_0000 * one,
            16 * ut >= one,
    ;
    lemma_rounds_below(f, us * one, ut, top);
    lemma_is_span(f.nearest(us * one, ut), 0x8000_0000_0000_0000);
}

/// Half of a number that is not too small is a number.
proof fn lemma_half(tempo: u64) -> (half: nat)
    requires
        0x3fb0_0000_0000_0000 <= tempo < Format::Double.infinity(),
    ensures
        half < Format::Double.infinity(),
        2 * Format::Double.units(half) == Format::Double.units(tempo as nat),
{
    let f: Format = Format::Double;
    let h: nat = f.hidden();
    crate::float_model::lemma_parts(f, tempo as nat);
    let t: nat = crate::float_model::exponent_part(f, tempo as nat);
    let q: nat = crate::float_model::significand_part(f, tempo as nat);
    let half: nat = ((t - 1) * h + q) as nat;
    assert(t >= 1 && half < f.infinity()) by (nonlinear_arith)
        requires
            tempo == t * h + q,
            q < 2 * h,
            half == (t - 1) * h + q,
            tempo >= 4 * h,
            tempo < f.infinity(),
    ;
    lemma_units_of_parts(f, (t - 1) as nat, q);
    vstd::arithmetic::power2::lemma_pow2_unfold(t);
    let p: nat = pow2((t - 1) as nat);
    assert(q * (2 * p) == 2 * (q * p)) by (nonlinear_arith);
    half
}

/// A change of tempo by the keys leads to a position that is a span.
proof fn lemma_moved_exists(key: Key, selected: UiSelection, pos: Duration, tempo: u64)
    requires
        pos.wf(),
        pos.secs < 0x400_0000_0000_0000,
        0x3fb0_0000_0000_0000 <= tempo < Format::Double.infinity(),
        tempo_change(key, selected, tempo) is Some,
    ensures
        moved_by_tempo(pos, tempo, tempo_change(key, selected, tempo)->0) is Some,
{
    let f: Format = Format::Double;
    let one: nat = second();
    let to: u64 = tempo_change(key, selected, tempo)->0;
    let uo: nat = f.units(tempo as nat);
    let un: nat = f.units(to as nat);
    law_tempo_keeps_its_range(key, selected, tempo);
    lemma_second();
    lemma_seconds_bounded(pos);
    lemma_units_increase(f, 0, to as nat);
    assert(uo <= 2 * un) by {
        if key == Key::Up {
            lemma_units_increase(f, tempo as nat, to as nat);
        } else {
            lemma_tempo_numbers();
            let half: nat = lemma_half(tempo);
            let rest: nat = (uo - f.units(f.magnitude(TEMPO_DOWN))) as nat;
            assert(f.value(tempo) + f.value(TEMPO_DOWN) == rest);
            lemma_nearest_exists(f, rest, 1);
            lemma_rounds_above(f, rest, 1, half);
            assert(f.sum(tempo, TEMPO_DOWN) == f.nearest(rest, 1));
        }
    }
    let two: nat = lemma_exact(f, 2, 1074);
    assert(uo * one <= f.units(two) * un) by (nonlinear_arith)
        requires
            uo <= 2 * un,
            f.units(two) == 2 * one,
    ;
    lemma_rounds_below(f, uo * one, un, two);
    let r: u64 = f.quotient(tempo, to) as u64;
    let ur: nat = f.units(r as nat);
    let us: nat = f.units(pos.seconds() as nat);
    let top: nat = lemma_exact(f, 0x10, 1130);
    lemma_pow2_adds(56, 1074);
    lemma2_to64_rest();
    assert(0x10 * pow2(1130) == 0x1000_0000_0000_0000 * one) by (nonlinear_arith)
        requires
            pow2(1130) == 0x100_0000_0000_0000 * one,
    ;
    assert(ur * us <= f.units(top) * one) by (nonlinear_arith)
        requires
            ur <= 2 * one,
            us <= 0x800_0000_0000_0000 * one,
            f.units(top) == 0x1000_0000_0000_0000 * one,
    ;
    lemma_rounds_below(f, ur * us, one, top);
    lemma_is_span(f.nearest(ur * us, one), 0x1000_0000_0000_0000);
}

/// At a tempo of one sixteenth or more every key can be handled, in a track and at a position of
/// less than two to the fifty-eight seconds.
pub proof fn law_every_key_can_be_handled(
    event: KeyEvent,
    selected: UiSelection,
    player: PlayerState,
    track: TrackMetadata,
)
    requires
        player.pos.wf(),
        track.length.wf(),
        player.pos.secs < 0x400_0000_0000_0000,
        track.length.secs < 0x400_0000_0000_0000,
        0x3fb0_0000_0000_0000 <= track.controller.tempo_bits < Format::Double.infinity(),
    ensures
        times_exist(event, selected, player, track),
{
    lemma_divided_exists(track.length, track.controller.tempo_bits);
    lemma2_to64();
    if tempo_change(event.code, selected, track.controller.tempo_bits) is Some {
        lemma_moved_exists(event.code, selected, player.pos, track.controller.tempo_bits);
    }
}

} // verus!
