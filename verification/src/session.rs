//! The player from its first drawing to its end.

use crate::controller::TrackMetadata;
use crate::input::{
    can_handle, commands_of, handle_input, length_at_tempo, pitch_change, result_of, seek_change,
    selection_after, start, tempo_change, times_exist, Command, InputResult, Key, KeyEvent,
    PlayerState, UiSelection,
};
use crate::never_stop::at_end;
use crate::time::Duration;
use vstd::prelude::*;

verus! {

/// What happens to a running player.
#[derive(Clone, Copy, PartialEq, Eq, Structural, Debug)]
pub enum SessionEvent {
    /// A key was pressed, released or repeated.
    Key(KeyEvent),
    /// The terminal has another size.
    Resized,
    /// Some other terminal event.
    OtherInput,
    /// No more terminal events will come.
    InputClosed,
    /// It is time to look at the position.
    Tick,
    /// The track has come to its end.
    TrackEnded,
}

/// What an event leads to: commands for the sink, and whether to draw or to quit.
#[derive(Debug)]
pub struct Reaction {
    pub commands: Vec<Command>,
    pub redraw: bool,
    pub quit: bool,
}

/// What the screen shows besides the state of the player and the track: the setting that is
/// selected, and the second that was last drawn for its own sake.
#[derive(Clone, Copy, PartialEq, Eq, Structural, Debug)]
pub struct Session {
    pub selected: UiSelection,
    pub last_pos: Option<u64>,
}

/// The whole seconds of the position at real time.
pub open spec fn second_of(player: PlayerState, track: TrackMetadata) -> nat {
    player.pos.times(track.controller.tempo_bits)->0 / 1_000_000_000
}

/// Whether the times that an event asks for exist.
pub open spec fn is_ready(
    event: SessionEvent,
    session: Session,
    player: PlayerState,
    track: TrackMetadata,
) -> bool {
    match event {
        SessionEvent::Key(key) => times_exist(key, session.selected, player, track),
        SessionEvent::Tick => player.pos.times(track.controller.tempo_bits) is Some,
        _ => true,
    }
}

/// Whether an event ends the session.
pub open spec fn quits(
    event: SessionEvent,
    session: Session,
    player: PlayerState,
    track: TrackMetadata,
) -> bool {
    match event {
        SessionEvent::Key(key) => key.pressed && result_of(
            key.code,
            session.selected,
            player,
            track,
        ) == InputResult::Quit,
        SessionEvent::InputClosed => true,
        _ => false,
    }
}

/// Whether an event changes what the screen shows.
pub open spec fn redraws(
    event: SessionEvent,
    session: Session,
    player: PlayerState,
    track: TrackMetadata,
) -> bool {
    match event {
        SessionEvent::Key(key) => key.pressed && result_of(
            key.code,
            session.selected,
            player,
            track,
        ) == InputResult::Handled,
        SessionEvent::Resized | SessionEvent::TrackEnded => true,
        SessionEvent::Tick => session.last_pos != Some(second_of(player, track) as u64),
        _ => false,
    }
}

/// What the sink is to do about an event.
pub open spec fn commands_for(
    event: SessionEvent,
    session: Session,
    player: PlayerState,
    track: TrackMetadata,
) -> Seq<Command> {
    match event {
        SessionEvent::Key(key) => if key.pressed {
            commands_of(key.code, session.selected, player, track)
        } else {
            Seq::empty()
        },
        SessionEvent::TrackEnded => if track.loop_track {
            seq![Command::Seek(start())]
        } else {
            seq![Command::Pause]
        },
        _ => Seq::empty(),
    }
}

impl Session {
    /// The session after an event.
    pub open spec fn after(
        self,
        event: SessionEvent,
        player: PlayerState,
        track: TrackMetadata,
    ) -> Session {
        match event {
            SessionEvent::Key(key) => if key.pressed {
                Session { selected: selection_after(key.code, self.selected), ..self }
            } else {
                self
            },
            SessionEvent::Tick => Session {
                last_pos: Some(second_of(player, track) as u64),
                ..self
            },
            _ => self,
        }
    }

    /// A session with the tempo selected, and nothing drawn.
    pub fn new() -> (s: Session)
        ensures
            s.selected == UiSelection::Tempo,
            s.last_pos is None,
    {
        Session { selected: UiSelection::Tempo, last_pos: None }
    }

    /// Whether the times that an event asks for exist.
    pub fn can_react(
        &self,
        event: SessionEvent,
        player: &PlayerState,
        track: &TrackMetadata,
    ) -> (r: bool)
        requires
            player.pos.wf(),
            track.length.wf(),
        ensures
            r == is_ready(event, *self, *player, *track),
    {
        match event {
            SessionEvent::Key(key) => can_handle(key, player, track, self.selected),
            SessionEvent::Tick => track.controller.try_duration_from_tempo(player.pos).is_some(),
            _ => true,
        }
    }

    /// Takes in an event.
    pub fn react(
        &mut self,
        event: SessionEvent,
        player: &PlayerState,
        track: &mut TrackMetadata,
    ) -> (reaction: Reaction)
        requires
            player.pos.wf(),
            old(track).length.wf(),
            is_ready(event, *old(self), *player, *old(track)),
        ensures
            *final(self) == old(self).after(event, *player, *old(track)),
            reaction.commands@ == commands_for(event, *old(self), *player, *old(track)),
            reaction.redraw == redraws(event, *old(self), *player, *old(track)),
            reaction.quit == quits(event, *old(self), *player, *old(track)),
            final(track).length == old(track).length,
            final(track).title == old(track).title,
            final(track).loop_track == old(track).loop_track,
            !(event is Key && event->Key_0.pressed) ==> *final(track) == *old(track),
            event is Key && event->Key_0.pressed ==> {
                &&& final(track).controller.tempo_bits == (match tempo_change(
                    event->Key_0.code,
                    old(self).selected,
                    old(track).controller.tempo_bits,
                ) {
                    Some(new) => new,
                    None => old(track).controller.tempo_bits,
                })
                &&& final(track).controller.transpose@ == (match pitch_change(
                    event->Key_0.code,
                    old(self).selected,
                    old(track).controller.transpose@,
                ) {
                    Some(new) => new,
                    None => old(track).controller.transpose@,
                })
            },
    {
        let mut commands: Vec<Command> = Vec::new();
        let mut redraw: bool = false;
        let mut quit: bool = false;
        match event {
            SessionEvent::Key(key) => {
                let mut selected: UiSelection = self.selected;
                let (result, todo) = handle_input(key, player, track, &mut selected);
                self.selected = selected;
                commands = todo;
                redraw = result == InputResult::Handled;
                quit = result == InputResult::Quit;
            },
            SessionEvent::Resized => {
                redraw = true;
            },
            SessionEvent::OtherInput => {},
            SessionEvent::InputClosed => {
                quit = true;
            },
            SessionEvent::Tick => {
                let pos: u64 = track.controller.duration_from_tempo(player.pos).secs;
                redraw = match self.last_pos {
                    Some(last) => last != pos,
                    None => true,
                };
                self.last_pos = Some(pos);
            },
            SessionEvent::TrackEnded => {
                if track.loop_track {
                    commands.push(Command::Seek(Duration::zero()));
                } else {
                    commands.push(Command::Pause);
                }
                redraw = true;
            },
        }
        assert(commands@ =~= commands_for(event, *old(self), *player, *old(track)));
        Reaction { commands, redraw, quit }
    }
}

/// A session ends when the input does, or by a key that quits, and by nothing else.
pub proof fn law_only_quitting_quits(
    event: SessionEvent,
    session: Session,
    player: PlayerState,
    track: TrackMetadata,
)
    ensures
        quits(event, session, player, track) <==> event is InputClosed || (event is Key
            && event->Key_0.pressed && (event->Key_0.code == Key::Esc || event->Key_0.code
            == Key::Char('q'))),
{
}

/// A tick in the same second as the tick before draws nothing.
pub proof fn law_one_drawing_per_second(
    session: Session,
    player: PlayerState,
    later: PlayerState,
    track: TrackMetadata,
)
    requires
        second_of(player, track) == second_of(later, track),
    ensures
        !redraws(
            SessionEvent::Tick,
            session.after(SessionEvent::Tick, player, track),
            later,
            track,
        ),
{
}

/// A track that is played in a loop is paused only by the play key, and goes back to its start
/// when it ends. Any other track is paused where it ends.
pub proof fn law_looping(
    event: SessionEvent,
    session: Session,
    player: PlayerState,
    track: TrackMetadata,
)
    ensures
        track.loop_track && commands_for(event, session, player, track).contains(Command::Pause)
            ==> event is Key && event->Key_0.code == Key::Char(' '),
        commands_for(SessionEvent::TrackEnded, session, player, track) == seq![
            if track.loop_track {
                Command::Seek(start())
            } else {
                Command::Pause
            },
        ],
{
}

/// Seeking to the start of a track that has any length makes it play on, and seeking to where
/// the end key leads makes it end.
pub proof fn law_end_of_track(player: PlayerState, track: TrackMetadata, total: Duration)
    requires
        total.wf(),
        length_at_tempo(track) == Some(total.total()),
    ensures
        at_end(start(), Some(total)) <==> total.total() == 0,
        seek_change(Key::End, player, track) is Some,
        at_end(Duration::of_total(seek_change(Key::End, player, track)->0), Some(total)),
{
    crate::time::lemma_total_determines(total, total);
}

} // verus!
