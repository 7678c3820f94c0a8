use elastic_player::controller::{ElasticController, PitchTranspose, TrackMetadata};
use elastic_player::input::{
    can_handle, handle_input, Command, InputResult, Key, KeyEvent, PlayerState, UiSelection,
};
use elastic_player::session::{Session, SessionEvent};
use elastic_player::time::Duration;

fn span(secs: u64, nanos: u32) -> Duration {
    Duration { secs, nanos }
}

fn track(tempo: f64) -> TrackMetadata {
    TrackMetadata {
        length: span(100, 0),
        title: "song".to_string(),
        controller: ElasticController::new(tempo.to_bits(), PitchTranspose::new(0).unwrap()),
        loop_track: false,
    }
}

fn player(paused: bool, secs: u64) -> PlayerState {
    PlayerState {
        paused,
        pos: span(secs, 0),
        volume: 1f32.to_bits(),
    }
}

fn press(
    code: Key,
    player: &PlayerState,
    track: &mut TrackMetadata,
    selected: &mut UiSelection,
) -> (InputResult, Vec<Command>) {
    let event = KeyEvent { code, pressed: true };
    assert!(can_handle(event, player, track, *selected));
    handle_input(event, player, track, selected)
}

fn commands(code: Key, player: &PlayerState, track: &mut TrackMetadata) -> Vec<Command> {
    let mut selected = UiSelection::Tempo;
    let (result, commands) = press(code, player, track, &mut selected);
    assert_eq!(result, InputResult::Handled);
    commands
}

#[test]
fn space_plays_and_pauses() {
    let mut t = track(1.0);
    assert_eq!(commands(Key::Char(' '), &player(false, 5), &mut t), [Command::Pause]);
    assert_eq!(commands(Key::Char(' '), &player(true, 5), &mut t), [Command::Play]);
}

#[test]
fn space_restarts_at_the_end() {
    let mut t = track(2.0);
    assert_eq!(
        commands(Key::Char(' '), &player(true, 50), &mut t),
        [Command::Seek(span(0, 0)), Command::Play]
    );
    assert_eq!(commands(Key::Char(' '), &player(true, 49), &mut t), [Command::Play]);
}

#[test]
fn tab_goes_round() {
    let mut t = track(1.0);
    let mut selected = UiSelection::Tempo;
    let mut seen = Vec::new();
    for _ in 0..3 {
        press(Key::Tab, &player(false, 0), &mut t, &mut selected);
        seen.push(selected);
    }
    assert_eq!(seen, [UiSelection::Pitch, UiSelection::Volume, UiSelection::Tempo]);
    seen.clear();
    for _ in 0..3 {
        press(Key::BackTab, &player(false, 0), &mut t, &mut selected);
        seen.push(selected);
    }
    assert_eq!(seen, [UiSelection::Volume, UiSelection::Pitch, UiSelection::Tempo]);
}

#[test]
fn letters_select() {
    let mut t = track(1.0);
    let mut selected = UiSelection::Tempo;
    let keys = [
        ('v', UiSelection::Volume),
        ('p', UiSelection::Pitch),
        ('t', UiSelection::Tempo),
    ];
    for (c, expected) in keys {
        let outcome = press(Key::Char(c), &player(false, 0), &mut t, &mut selected);
        assert_eq!(outcome.0, InputResult::Handled);
        assert!(outcome.1.is_empty());
        assert_eq!(selected, expected);
    }
}

#[test]
fn seek_keys() {
    let mut t = track(2.0);
    let p = player(false, 30);
    assert_eq!(commands(Key::Home, &p, &mut t), [Command::Seek(span(0, 0))]);
    assert_eq!(commands(Key::Backspace, &p, &mut t), [Command::Seek(span(0, 0))]);
    assert_eq!(commands(Key::End, &p, &mut t), [Command::Seek(span(50, 0))]);
    assert_eq!(commands(Key::Left, &p, &mut t), [Command::Seek(span(25, 0))]);
    assert_eq!(commands(Key::Right, &p, &mut t), [Command::Seek(span(35, 0))]);
    assert_eq!(commands(Key::Left, &player(false, 3), &mut t), [Command::Seek(span(0, 0))]);
    assert_eq!(commands(Key::Right, &player(false, 48), &mut t), [Command::Seek(span(50, 0))]);
}

#[test]
fn up_raises_the_tempo_and_moves_backward() {
    let mut t = track(1.0);
    let p = player(false, 21);
    assert_eq!(commands(Key::Up, &p, &mut t), [Command::Seek(span(20, 0))]);
    assert_eq!(t.controller.tempo(), 1.05f64.to_bits());
    assert_eq!(t.controller.pitch().get(), 0);
}

#[test]
fn down_lowers_the_tempo_and_moves_forward() {
    let mut t = track(1.0);
    let p = player(false, 19);
    assert_eq!(commands(Key::Down, &p, &mut t), [Command::Seek(span(20, 0))]);
    assert_eq!(t.controller.tempo(), 0.95f64.to_bits());
}

#[test]
fn tempo_follows_the_same_steps_as_the_machine() {
    let mut t = track(1.0);
    let mut selected = UiSelection::Tempo;
    let mut tempo = 1f64;
    let mut pos = std::time::Duration::new(60, 123_456_789);
    for i in 0..60 {
        let key = if i < 30 { Key::Up } else { Key::Down };
        let p = PlayerState {
            paused: false,
            pos: span(pos.as_secs(), pos.subsec_nanos()),
            volume: 0,
        };
        let (result, commands) = press(key, &p, &mut t, &mut selected);
        let new = if i < 30 { tempo + 0.05 } else { tempo - 0.05 };
        if (i < 30 && tempo < 2.0) || (i >= 30 && tempo > 0.15) {
            pos = pos.mul_f64(tempo / new);
            tempo = new;
            assert_eq!(result, InputResult::Handled);
            assert_eq!(
                commands,
                [Command::Seek(span(pos.as_secs(), pos.subsec_nanos()))]
            );
        } else {
            assert_eq!(result, InputResult::Unhandled);
            assert!(commands.is_empty());
        }
        assert_eq!(t.controller.tempo(), tempo.to_bits());
        assert!((0.09999999999999999..=2.05).contains(&tempo));
    }
}

#[test]
fn a_change_of_tempo_keeps_the_place() {
    let mut t = track(1.35);
    let p = PlayerState { paused: false, pos: span(61, 987_654_321), volume: 0 };
    let before = t.controller.duration_from_tempo(p.pos);
    let after = match commands(Key::Up, &p, &mut t)[..] {
        [Command::Seek(target)] => t.controller.duration_from_tempo(target),
        _ => panic!("no seek"),
    };
    let off = if after.at_least(before) {
        after.saturating_sub(before)
    } else {
        before.saturating_sub(after)
    };
    assert!(off.secs == 0 && off.nanos <= 3);
}

#[test]
fn pitch_moves_by_semitones() {
    let mut t = track(1.0);
    let mut selected = UiSelection::Pitch;
    let p = player(false, 30);
    for i in 1..=12 {
        let outcome = press(Key::Up, &p, &mut t, &mut selected);
        assert_eq!(outcome.0, InputResult::Handled);
        assert!(outcome.1.is_empty());
        assert_eq!(t.controller.pitch().get(), i);
    }
    assert_eq!(press(Key::Up, &p, &mut t, &mut selected).0, InputResult::Unhandled);
    assert_eq!(t.controller.pitch().get(), 12);
    for _ in 0..24 {
        press(Key::Down, &p, &mut t, &mut selected);
    }
    assert_eq!(t.controller.pitch().get(), -12);
    assert_eq!(press(Key::Down, &p, &mut t, &mut selected).0, InputResult::Unhandled);
    assert_eq!(t.controller.tempo(), 1f64.to_bits());
}

#[test]
fn volume_follows_the_same_steps_as_the_machine() {
    let mut t = track(1.0);
    let mut selected = UiSelection::Volume;
    let mut volume = 1f32;
    for i in 0..50 {
        let key = if i < 15 { Key::Up } else { Key::Down };
        let p = PlayerState { paused: false, pos: span(0, 0), volume: volume.to_bits() };
        let (result, commands) = press(key, &p, &mut t, &mut selected);
        if (i < 15 && volume < 2.0) || (i >= 15 && volume > 0.0) {
            volume = if i < 15 { volume + 0.1 } else { volume - 0.1 };
            assert_eq!(result, InputResult::Handled);
            assert_eq!(commands, [Command::SetVolume(volume.to_bits())]);
        } else {
            assert_eq!(result, InputResult::Unhandled);
            assert!(commands.is_empty());
        }
        assert!((-0.1..=2.1000003).contains(&volume));
    }
}

#[test]
fn other_keys_mean_nothing() {
    let mut t = track(1.0);
    let mut selected = UiSelection::Tempo;
    let p = player(false, 0);
    for code in [Key::Other, Key::Char('x'), Key::Char('Q'), Key::Char('T')] {
        let outcome = press(code, &p, &mut t, &mut selected);
        assert_eq!(outcome, (InputResult::Unhandled, vec![]));
    }
    assert_eq!(press(Key::Esc, &p, &mut t, &mut selected), (InputResult::Quit, vec![]));
    assert_eq!(
        press(Key::Char('q'), &p, &mut t, &mut selected),
        (InputResult::Quit, vec![])
    );
}

#[test]
fn releases_mean_nothing() {
    let mut t = track(1.0);
    let mut selected = UiSelection::Tempo;
    for code in [Key::Char('q'), Key::Up, Key::Tab, Key::Char(' ')] {
        let event = KeyEvent { code, pressed: false };
        let outcome = handle_input(event, &player(false, 0), &mut t, &mut selected);
        assert_eq!(outcome, (InputResult::Unhandled, vec![]));
    }
    assert_eq!(selected, UiSelection::Tempo);
    assert_eq!(t.controller.tempo(), 1f64.to_bits());
}

#[test]
fn times_that_do_not_exist_are_found_out() {
    let stopped = track(0.0);
    let p = player(true, 10);
    let press = |code: Key| KeyEvent { code, pressed: true };
    for code in [Key::Char(' '), Key::End, Key::Right] {
        assert!(!can_handle(press(code), &p, &stopped, UiSelection::Tempo));
    }
    assert!(can_handle(press(Key::Left), &p, &stopped, UiSelection::Tempo));
    let p = PlayerState { paused: true, pos: span(u64::MAX - 4, 0), volume: 0 };
    assert!(!can_handle(press(Key::Right), &p, &track(1.0), UiSelection::Tempo));
    // from minus five hundredths to zero
    assert!(!can_handle(press(Key::Up), &player(true, 10), &track(-0.05), UiSelection::Tempo));
}

#[test]
fn every_key_can_be_handled_in_the_range_of_the_keys() {
    let keys = [
        Key::Char(' '), Key::Char('q'), Key::Char('x'), Key::Tab, Key::BackTab, Key::Home,
        Key::Backspace, Key::End, Key::Left, Key::Right, Key::Up, Key::Down, Key::Esc, Key::Other,
    ];
    for tempo in [0.0625, 0.1, 0.15, 0.151, 1.0, 1.999, 2.0, 2.05, 100.0, 1e300] {
        for paused in [false, true] {
            for selected in [UiSelection::Tempo, UiSelection::Pitch, UiSelection::Volume] {
                for code in keys {
                    let mut t = track(tempo);
                    t.length = span((1 << 58) - 1, 999_999_999);
                    let p = PlayerState {
                        paused,
                        pos: span((1 << 58) - 1, 999_999_999),
                        volume: 1f32.to_bits(),
                    };
                    let mut after = selected;
                    press(code, &p, &mut t, &mut after);
                }
            }
        }
    }
}

fn react(
    session: &mut Session,
    event: SessionEvent,
    p: &PlayerState,
    t: &mut TrackMetadata,
) -> (Vec<Command>, bool, bool) {
    assert!(session.can_react(event, p, t));
    let reaction = session.react(event, p, t);
    (reaction.commands, reaction.redraw, reaction.quit)
}

fn key(code: Key) -> SessionEvent {
    SessionEvent::Key(KeyEvent { code, pressed: true })
}

#[test]
fn sessions_draw_once_per_second() {
    let mut session = Session::new();
    let mut t = track(2.0);
    let at = |secs: u64, nanos: u32| PlayerState {
        paused: false,
        pos: span(secs, nanos),
        volume: 0,
    };
    assert_eq!(session.last_pos, None);
    assert_eq!(react(&mut session, SessionEvent::Tick, &at(0, 0), &mut t), (vec![], true, false));
    assert_eq!(
        react(&mut session, SessionEvent::Tick, &at(0, 400_000_000), &mut t),
        (vec![], false, false)
    );
    assert_eq!(
        react(&mut session, SessionEvent::Tick, &at(0, 500_000_000), &mut t),
        (vec![], true, false)
    );
    assert_eq!(session.last_pos, Some(1));
}

#[test]
fn sessions_end_by_key_or_with_the_input() {
    let mut session = Session::new();
    let mut t = track(1.0);
    let p = player(false, 0);
    assert_eq!(react(&mut session, key(Key::Char('q')), &p, &mut t), (vec![], false, true));
    assert_eq!(react(&mut session, key(Key::Esc), &p, &mut t), (vec![], false, true));
    assert_eq!(
        react(&mut session, SessionEvent::InputClosed, &p, &mut t),
        (vec![], false, true)
    );
}

#[test]
fn sessions_pass_keys_on() {
    let mut session = Session::new();
    let mut t = track(1.0);
    let p = player(false, 30);
    assert_eq!(session.selected, UiSelection::Tempo);
    assert_eq!(react(&mut session, key(Key::Tab), &p, &mut t), (vec![], true, false));
    assert_eq!(session.selected, UiSelection::Pitch);
    assert_eq!(react(&mut session, key(Key::Up), &p, &mut t), (vec![], true, false));
    assert_eq!(t.controller.pitch().get(), 1);
    assert_eq!(
        react(&mut session, key(Key::Left), &p, &mut t),
        (vec![Command::Seek(span(25, 0))], true, false)
    );
    assert_eq!(react(&mut session, key(Key::Other), &p, &mut t), (vec![], false, false));
    assert_eq!(react(&mut session, SessionEvent::Resized, &p, &mut t), (vec![], true, false));
    assert_eq!(react(&mut session, SessionEvent::OtherInput, &p, &mut t), (vec![], false, false));
}

#[test]
fn tracks_loop_or_pause_at_their_end() {
    let mut session = Session::new();
    let mut t = track(1.0);
    let p = player(false, 100);
    assert_eq!(
        react(&mut session, SessionEvent::TrackEnded, &p, &mut t),
        (vec![Command::Pause], true, false)
    );
    t.loop_track = true;
    assert_eq!(
        react(&mut session, SessionEvent::TrackEnded, &p, &mut t),
        (vec![Command::Seek(span(0, 0))], true, false)
    );
}

#[test]
fn sessions_know_when_a_time_does_not_exist() {
    let session = Session::new();
    let p = player(true, 10);
    assert!(!session.can_react(SessionEvent::Tick, &p, &track(-1.0)));
    assert!(!session.can_react(key(Key::End), &p, &track(0.0)));
    assert!(session.can_react(SessionEvent::TrackEnded, &p, &track(-1.0)));
}
