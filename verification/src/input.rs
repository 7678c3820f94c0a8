//! The key bindings of the player.

use crate::controller::{PitchTranspose, TrackMetadata};
use crate::float_model::Format;
use crate::time::Duration;
use vstd::arithmetic::power2::pow2;
use vstd::prelude::*;

verus! {

/// How far a seek key moves, in seconds.
pub const SEEK_SECS: u64 = 5;

/// The tempo from which on it is not raised any more: 2.0.
pub const TEMPO_CEILING: u64 = 0x4000_0000_0000_0000;

/// The tempo from which on it is not lowered any more: 0.15.
pub const TEMPO_FLOOR: u64 = 0x3fc3_3333_3333_3333;

/// What is added to raise the tempo: 0.05.
pub const TEMPO_UP: u64 = 0x3fa9_9999_9999_999a;

/// What is added to lower the tempo: -0.05.
pub const TEMPO_DOWN: u64 = 0xbfa9_9999_9999_999a;

/// The volume from which on it is not raised any more: 2.0.
pub const VOLUME_CEILING: u32 = 0x4000_0000;

/// What is added to raise the volume: 0.1.
pub const VOLUME_UP: u32 = 0x3dcc_cccd;

/// What is added to lower the volume: -0.1.
pub const VOLUME_DOWN: u32 = 0xbdcc_cccd;

/// The setting that the arrow keys change.
#[derive(Clone, Copy, PartialEq, Eq, Structural, Debug)]
pub enum UiSelection {
    Tempo,
    Pitch,
    Volume,
}

/// What a key press came to.
#[derive(Clone, Copy, PartialEq, Eq, Structural, Debug)]
pub enum InputResult {
    Unhandled,
    Handled,
    Quit,
}

/// The keys that mean something to the player.
#[derive(Clone, Copy, PartialEq, Eq, Structural, Debug)]
pub enum Key {
    Char(char),
    Tab,
    BackTab,
    Home,
    Backspace,
    End,
    Left,
    Right,
    Up,
    Down,
    Esc,
    Other,
}

/// A key that was pressed, or one that was released or repeated.
#[derive(Clone, Copy, PartialEq, Eq, Structural, Debug)]
pub struct KeyEvent {
    pub code: Key,
    pub pressed: bool,
}

/// What the sink says of itself: whether it is paused, its position at tempo, and its volume as
/// the pattern of a floating-point number.
#[derive(Clone, Copy, PartialEq, Eq, Structural, Debug)]
pub struct PlayerState {
    pub paused: bool,
    pub pos: Duration,
    pub volume: u32,
}

/// What the sink is to do. A seek that the sink refuses is let go.
#[derive(Clone, Copy, PartialEq, Eq, Structural, Debug)]
pub enum Command {
    Play,
    Pause,
    Seek(Duration),
    SetVolume(u32),
}

/// The start of the track.
pub open spec fn start() -> Duration {
    Duration { secs: 0, nanos: 0 }
}

/// The setting after or before `selected` when going round.
pub open spec fn cycled(selected: UiSelection, forward: bool) -> UiSelection {
    match selected {
        UiSelection::Tempo => if forward {
            UiSelection::Pitch
        } else {
            UiSelection::Volume
        },
        UiSelection::Pitch => if forward {
            UiSelection::Volume
        } else {
            UiSelection::Tempo
        },
        UiSelection::Volume => if forward {
            UiSelection::Tempo
        } else {
            UiSelection::Pitch
        },
    }
}

/// The setting that is selected after a key press.
pub open spec fn selection_after(key: Key, selected: UiSelection) -> UiSelection {
    match key {
        Key::Tab => cycled(selected, true),
        Key::BackTab => cycled(selected, false),
        Key::Char('t') => UiSelection::Tempo,
        Key::Char('p') => UiSelection::Pitch,
        Key::Char('v') => UiSelection::Volume,
        _ => selected,
    }
}

/// The new tempo, if a key press changes it.
pub open spec fn tempo_change(key: Key, selected: UiSelection, tempo: u64) -> Option<u64> {
    let f = Format::Double;
    if selected != UiSelection::Tempo {
        None
    } else if key == Key::Up && f.less(tempo, TEMPO_CEILING) {
        Some(f.sum(tempo, TEMPO_UP) as u64)
    } else if key == Key::Down && f.less(TEMPO_FLOOR, tempo) {
        Some(f.sum(tempo, TEMPO_DOWN) as u64)
    } else {
        None
    }
}

/// The new pitch, if a key press changes it.
pub open spec fn pitch_change(key: Key, selected: UiSelection, semitones: int) -> Option<int> {
    if selected != UiSelection::Pitch {
        None
    } else if key == Key::Up && semitones < 12 {
        Some(semitones + 1)
    } else if key == Key::Down && semitones > -12 {
        Some(semitones - 1)
    } else {
        None
    }
}

/// The new volume, if a key press changes it.
pub open spec fn volume_change(key: Key, selected: UiSelection, volume: u32) -> Option<u32> {
    let f = Format::Single;
    if selected != UiSelection::Volume {
        None
    } else if key == Key::Up && f.less(volume as u64, VOLUME_CEILING as u64) {
        Some(f.sum(volume as u64, VOLUME_UP as u64) as u32)
    } else if key == Key::Down && f.less(0, volume as u64) {
        Some(f.sum(volume as u64, VOLUME_DOWN as u64) as u32)
    } else {
        None
    }
}

/// The length of the track at its tempo, in nanoseconds.
pub open spec fn length_at_tempo(track: TrackMetadata) -> Option<nat> {
    track.length.divided(track.controller.tempo_bits)
}

/// Where the sink stands after a change of tempo, so that the track stands where it stood.
pub open spec fn moved_by_tempo(pos: Duration, from: u64, to: u64) -> Option<nat> {
    pos.times(Format::Double.quotient(from, to) as u64)
}

/// Where a seek key leads, in nanoseconds.
pub open spec fn seek_change(key: Key, player: PlayerState, track: TrackMetadata) -> Option<nat> {
    let step = (SEEK_SECS * 1_000_000_000) as nat;
    let pos = player.pos.total();
    match key {
        Key::Home | Key::Backspace => Some(0),
        Key::End => length_at_tempo(track),
        Key::Left => Some(
            if pos < step {
                0
            } else {
                (pos - step) as nat
            },
        ),
        Key::Right => match length_at_tempo(track) {
            Some(length) => Some(
                if length < pos + step {
                    length
                } else {
                    pos + step
                },
            ),
            None => None,
        },
        _ => None,
    }
}

/// What the sink is to do after a key press.
pub open spec fn commands_of(
    key: Key,
    selected: UiSelection,
    player: PlayerState,
    track: TrackMetadata,
) -> Seq<Command> {
    let tempo = track.controller.tempo_bits;
    if key == Key::Char(' ') {
        if !player.paused {
            seq![Command::Pause]
        } else if player.pos.total() >= length_at_tempo(track)->0 {
            seq![Command::Seek(start()), Command::Play]
        } else {
            seq![Command::Play]
        }
    } else if let Some(target) = seek_change(key, player, track) {
        seq![Command::Seek(Duration::of_total(target))]
    } else if let Some(new) = tempo_change(key, selected, tempo) {
        seq![Command::Seek(Duration::of_total(moved_by_tempo(player.pos, tempo, new)->0))]
    } else if let Some(volume) = volume_change(key, selected, player.volume) {
        seq![Command::SetVolume(volume)]
    } else {
        Seq::empty()
    }
}

/// Whether a key press quits, means something, or does not.
pub open spec fn result_of(
    key: Key,
    selected: UiSelection,
    player: PlayerState,
    track: TrackMetadata,
) -> InputResult {
    match key {
        Key::Char(c) => if c == 'q' {
            InputResult::Quit
        } else if c == ' ' || c == 't' || c == 'p' || c == 'v' {
            InputResult::Handled
        } else {
            InputResult::Unhandled
        },
        Key::Esc => InputResult::Quit,
        Key::Other => InputResult::Unhandled,
        Key::Up | Key::Down => {
            let tempo = tempo_change(key, selected, track.controller.tempo_bits);
            let pitch = pitch_change(key, selected, track.controller.transpose@);
            let volume = volume_change(key, selected, player.volume);
            if tempo is Some || pitch is Some || volume is Some {
                InputResult::Handled
            } else {
                InputResult::Unhandled
            }
        },
        _ => InputResult::Handled,
    }
}

/// Whether the times that a key press asks for exist: the position and the length at tempo may
/// be past the greatest span, or no span at all for a tempo that is zero, negative or not a
/// number.
pub open spec fn times_exist(
    event: KeyEvent,
    selected: UiSelection,
    player: PlayerState,
    track: TrackMetadata,
) -> bool {
    let tempo = track.controller.tempo_bits;
    event.pressed ==> match event.code {
        Key::Char(' ') => player.paused ==> length_at_tempo(track) is Some,
        Key::End => length_at_tempo(track) is Some,
        Key::Right => length_at_tempo(track) is Some && player.pos.total() + SEEK_SECS
            * 1_000_000_000 < pow2(64) * 1_000_000_000,
        Key::Up | Key::Down => {
            let new = tempo_change(event.code, selected, tempo);
            new is Some ==> moved_by_tempo(player.pos, tempo, new->0) is Some
        },
        _ => true,
    }
}

/// The setting after or before `selected` when going round.
fn cycle(selected: UiSelection, forward: bool) -> (next: UiSelection)
    ensures
        next == cycled(selected, forward),
{
    match selected {
        UiSelection::Tempo => if forward {
            UiSelection::Pitch
        } else {
            UiSelection::Volume
        },
        UiSelection::Pitch => if forward {
            UiSelection::Volume
        } else {
            UiSelection::Tempo
        },
        UiSelection::Volume => if forward {
            UiSelection::Tempo
        } else {
            UiSelection::Pitch
        },
    }
}

/// The new tempo, if a key press changes it.
fn change_tempo(key: Key, selected: UiSelection, tempo: u64) -> (new: Option<u64>)
    ensures
        new == tempo_change(key, selected, tempo),
{
    let f: Format = Format::Double;
    if selected != UiSelection::Tempo {
        None
    } else if key == Key::Up && f.lt(tempo, TEMPO_CEILING) {
        Some(f.add(tempo, TEMPO_UP))
    } else if key == Key::Down && f.lt(TEMPO_FLOOR, tempo) {
        Some(f.add(tempo, TEMPO_DOWN))
    } else {
        None
    }
}

/// The new pitch, if a key press changes it.
fn change_pitch(key: Key, selected: UiSelection, pitch: PitchTranspose) -> (new: Option<
    PitchTranspose,
>)
    ensures
        new is Some <==> pitch_change(key, selected, pitch@) is Some,
        new is Some ==> new->0@ == pitch_change(key, selected, pitch@)->0,
{
    if selected != UiSelection::Pitch {
        None
    } else if key == Key::Up && pitch.get() < PitchTranspose::highest().get() {
        Some(pitch.raised())
    } else if key == Key::Down && pitch.get() > PitchTranspose::lowest().get() {
        Some(pitch.lowered())
    } else {
        None
    }
}

/// The new volume, if a key press changes it.
fn change_volume(key: Key, selected: UiSelection, volume: u32) -> (new: Option<u32>)
    ensures
        new == volume_change(key, selected, volume),
{
    let f: Format = Format::Single;
    if selected != UiSelection::Volume {
        None
    } else if key == Key::Up && f.lt(volume as u64, VOLUME_CEILING as u64) {
        Some(f.add(volume as u64, VOLUME_UP as u64) as u32)
    } else if key == Key::Down && f.lt(0, volume as u64) {
        Some(f.add(volume as u64, VOLUME_DOWN as u64) as u32)
    } else {
        None
    }
}

/// Whether the times that a key press asks for exist.
pub fn can_handle(
    event: KeyEvent,
    player: &PlayerState,
    track: &TrackMetadata,
    selected: UiSelection,
) -> (r: bool)
    requires
        player.pos.wf(),
        track.length.wf(),
    ensures
        r == times_exist(event, selected, *player, *track),
{
    if !event.pressed {
        return true;
    }
    match event.code {
        Key::Char(' ') => !player.paused || track.controller.try_duration_at_tempo(
            track.length,
        ).is_some(),
        Key::End => track.controller.try_duration_at_tempo(track.length).is_some(),
        Key::Right => {
            proof {
                vstd::arithmetic::power2::lemma2_to64();
            }
            track.controller.try_duration_at_tempo(track.length).is_some() && player.pos.secs
                <= u64::MAX - SEEK_SECS
        },
        Key::Up | Key::Down => {
            let tempo: u64 = track.controller.tempo();
            match change_tempo(event.code, selected, tempo) {
                Some(new) => player.pos.try_mul(Format::Double.div(tempo, new)).is_some(),
                None => true,
            }
        },
        _ => true,
    }
}

/// Takes in a key press: changes tempo, pitch and selection, and tells what the sink is to do and
/// what the press came to.
pub fn handle_input(
    event: KeyEvent,
    player: &PlayerState,
    track: &mut TrackMetadata,
    selected: &mut UiSelection,
) -> (outcome: (InputResult, Vec<Command>))
    requires
        player.pos.wf(),
        old(track).length.wf(),
        times_exist(event, *old(selected), *player, *old(track)),
    ensures
        final(track).length == old(track).length,
        final(track).title == old(track).title,
        final(track).loop_track == old(track).loop_track,
        !event.pressed ==> {
            &&& outcome.0 == InputResult::Unhandled
            &&& outcome.1@.len() == 0
            &&& *final(track) == *old(track)
            &&& *final(selected) == *old(selected)
        },
        event.pressed ==> {
            &&& outcome.0 == result_of(event.code, *old(selected), *player, *old(track))
            &&& outcome.1@ == commands_of(event.code, *old(selected), *player, *old(track))
            &&& *final(selected) == selection_after(event.code, *old(selected))
            &&& final(track).controller.tempo_bits == (match tempo_change(
                event.code,
                *old(selected),
                old(track).controller.tempo_bits,
            ) {
                Some(new) => new,
                None => old(track).controller.tempo_bits,
            })
            &&& final(track).controller.transpose@ == (match pitch_change(
                event.code,
                *old(selected),
                old(track).controller.transpose@,
            ) {
                Some(new) => new,
                None => old(track).controller.transpose@,
            })
        },
{
    let mut commands: Vec<Command> = Vec::new();
    if !event.pressed {
        return (InputResult::Unhandled, commands);
    }
    let key: Key = event.code;
    let result: InputResult = match key {
        // pause / unpause
        Key::Char(' ') => {
            if player.paused {
                // restart if at the end of the track
                if player.pos.at_least(track.length_with_tempo()) {
                    commands.push(Command::Seek(Duration::zero()));
                }
                commands.push(Command::Play);
            } else {
                commands.push(Command::Pause);
            }
            InputResult::Handled
        },
        Key::Tab => {
            *selected = cycle(*selected, true);
            InputResult::Handled
        },
        Key::BackTab => {
            *selected = cycle(*selected, false);
            InputResult::Handled
        },
        Key::Char('t') => {
            *selected = UiSelection::Tempo;
            InputResult::Handled
        },
        Key::Char('p') => {
            *selected = UiSelection::Pitch;
            InputResult::Handled
        },
        Key::Char('v') => {
            *selected = UiSelection::Volume;
            InputResult::Handled
        },
        // seek to beginning
        Key::Home | Key::Backspace => {
            commands.push(Command::Seek(Duration::zero()));
            InputResult::Handled
        },
        // seek to end
        Key::End => {
            let target: Duration = track.length_with_tempo();
            proof {
                crate::time::lemma_total_determines(target, target);
            }
            commands.push(Command::Seek(target));
            InputResult::Handled
        },
        // seek backward
        Key::Left => {
            let target: Duration = player.pos.saturating_sub(Duration::from_secs(SEEK_SECS));
            proof {
                crate::time::lemma_total_determines(target, target);
            }
            commands.push(Command::Seek(target));
            InputResult::Handled
        },
        // seek forward
        Key::Right => {
            let target: Duration = player.pos.plus(Duration::from_secs(SEEK_SECS)).min(
                track.length_with_tempo(),
            );
            proof {
                crate::time::lemma_total_determines(target, target);
            }
            commands.push(Command::Seek(target));
            InputResult::Handled
        },
        Key::Up | Key::Down => {
            let tempo: u64 = track.controller.tempo();
            let pitch: PitchTranspose = track.controller.pitch();
            if let Some(new) = change_tempo(key, *selected, tempo) {
                track.controller.set_tempo(new);
                // a higher tempo moves playback backward, a lower one forward
                if let Some(target) = player.pos.try_mul(Format::Double.div(tempo, new)) {
                    proof {
                        crate::time::lemma_total_determines(target, target);
                    }
                    commands.push(Command::Seek(target));
                }
                InputResult::Handled
            } else if let Some(new) = change_pitch(key, *selected, pitch) {
                track.controller.set_pitch(new);
                InputResult::Handled
            } else if let Some(new) = change_volume(key, *selected, player.volume) {
                commands.push(Command::SetVolume(new));
                InputResult::Handled
            } else {
                InputResult::Unhandled
            }
        },
        Key::Char('q') | Key::Esc => InputResult::Quit,
        _ => InputResult::Unhandled,
    };
    assert(commands@ =~= commands_of(event.code, *old(selected), *player, *old(track)));
    (result, commands)
}

} // verus!
