//! Tempo and pitch of the track that is playing.

use crate::float_model::Format;
use crate::time::Duration;
use vstd::prelude::*;

verus! {

/// The pattern of the number one.
pub const ONE: u64 = 0x3ff0_0000_0000_0000;

/// Transposition of pitch in positive or negative semitones, at most an octave either way.
#[derive(Clone, Copy, PartialEq, Eq, Structural, Debug)]
pub struct PitchTranspose {
    semitones: i8,
}

impl PitchTranspose {
    #[verifier::type_invariant]
    spec fn in_range(self) -> bool {
        -12 <= self.semitones <= 12
    }

    /// The number of semitones.
    pub closed spec fn view(self) -> int {
        self.semitones as int
    }

    /// The transposition by `semitones`, if that is within an octave.
    pub fn new(semitones: i8) -> (p: Option<PitchTranspose>)
        ensures
            p is Some <==> -12 <= semitones <= 12,
            p is Some ==> p->0@ == semitones,
    {
        if -12 <= semitones && semitones <= 12 {
            Some(PitchTranspose { semitones })
        } else {
            None
        }
    }

    /// An octave down.
    pub fn lowest() -> (p: PitchTranspose)
        ensures
            p@ == -12,
    {
        PitchTranspose { semitones: -12 }
    }

    /// An octave up.
    pub fn highest() -> (p: PitchTranspose)
        ensures
            p@ == 12,
    {
        PitchTranspose { semitones: 12 }
    }

    /// The number of semitones, which is never more than an octave.
    pub fn get(self) -> (semitones: i8)
        ensures
            semitones == self@,
            -12 <= self@ <= 12,
    {
        proof {
            use_type_invariant(&self);
        }
        self.semitones
    }

    /// One semitone up.
    pub fn raised(self) -> (p: PitchTranspose)
        requires
            self@ < 12,
        ensures
            p@ == self@ + 1,
    {
        proof {
            use_type_invariant(&self);
        }
        PitchTranspose { semitones: self.semitones + 1 }
    }

    /// One semitone down.
    pub fn lowered(self) -> (p: PitchTranspose)
        requires
            self@ > -12,
        ensures
            p@ == self@ - 1,
    {
        proof {
            use_type_invariant(&self);
        }
        PitchTranspose { semitones: self.semitones - 1 }
    }
}

/// A handle for controlling the tempo and pitch of a track.
#[derive(Clone, Copy, Debug)]
pub struct ElasticController {
    /// The tempo as the pattern of a floating-point number.
    pub tempo_bits: u64,
    /// The transposition of pitch.
    pub transpose: PitchTranspose,
}

impl ElasticController {
    /// A controller with initial tempo multiplier `tempo` and pitch transposition `transpose`.
    pub fn new(tempo: u64, transpose: PitchTranspose) -> (c: ElasticController)
        ensures
            c.tempo_bits == tempo,
            c.transpose == transpose,
    {
        ElasticController { tempo_bits: tempo, transpose }
    }

    /// Sets the tempo. A tempo of 2.0 plays at double the original speed, a tempo of 0.5 at half
    /// of it.
    pub fn set_tempo(&mut self, tempo: u64)
        ensures
            final(self).tempo_bits == tempo,
            final(self).transpose == old(self).transpose,
    {
        self.tempo_bits = tempo;
    }

    /// The current tempo.
    pub fn tempo(&self) -> (tempo: u64)
        ensures
            tempo == self.tempo_bits,
    {
        self.tempo_bits
    }

    /// Sets the pitch in positive or negative semitones.
    pub fn set_pitch(&mut self, transpose: PitchTranspose)
        ensures
            final(self).transpose == transpose,
            final(self).tempo_bits == old(self).tempo_bits,
    {
        self.transpose = transpose;
    }

    /// The current pitch.
    pub fn pitch(&self) -> (transpose: PitchTranspose)
        ensures
            transpose == self.transpose,
            -12 <= transpose@ <= 12,
    {
        let transpose: PitchTranspose = self.transpose;
        proof {
            use_type_invariant(&transpose);
        }
        transpose
    }

    /// The factor by which the length of the track changes at the current tempo.
    pub fn time_ratio(&self) -> (ratio: u64)
        ensures
            ratio == Format::Double.quotient(ONE, self.tempo_bits),
    {
        Format::Double.div(ONE, self.tempo_bits)
    }

    /// Given a position at tempo, computes the position at real time, if there is one.
    pub fn try_duration_from_tempo(&self, pos: Duration) -> (d: Option<Duration>)
        requires
            pos.wf(),
        ensures
            d is Some <==> pos.times(self.tempo_bits) is Some,
            d is Some ==> d->0.wf() && d->0.total() == pos.times(self.tempo_bits)->0,
    {
        pos.try_mul(self.tempo_bits)
    }

    /// Given a position at real time, computes the position at tempo, if there is one.
    pub fn try_duration_at_tempo(&self, pos: Duration) -> (d: Option<Duration>)
        requires
            pos.wf(),
        ensures
            d is Some <==> pos.divided(self.tempo_bits) is Some,
            d is Some ==> d->0.wf() && d->0.total() == pos.divided(self.tempo_bits)->0,
    {
        pos.try_div(self.tempo_bits)
    }

    /// Given a position at tempo, computes the position at real time.
    pub fn duration_from_tempo(&self, pos: Duration) -> (d: Duration)
        requires
            pos.wf(),
            pos.times(self.tempo_bits) is Some,
        ensures
            d.wf(),
            d.total() == pos.times(self.tempo_bits)->0,
    {
        match self.try_duration_from_tempo(pos) {
            Some(d) => d,
            None => Duration::zero(),
        }
    }

    /// Given a position at real time, computes the position at tempo.
    pub fn duration_at_tempo(&self, pos: Duration) -> (d: Duration)
        requires
            pos.wf(),
            pos.divided(self.tempo_bits) is Some,
        ensures
            d.wf(),
            d.total() == pos.divided(self.tempo_bits)->0,
    {
        match self.try_duration_at_tempo(pos) {
            Some(d) => d,
            None => Duration::zero(),
        }
    }
}

/// What is known of the track besides its playing state.
#[derive(Debug)]
pub struct TrackMetadata {
    /// The length of the track at its original speed.
    pub length: Duration,
    pub title: String,
    pub controller: ElasticController,
    /// Whether to start over at the end.
    pub loop_track: bool,
}

impl TrackMetadata {
    /// The length of the track at the current tempo.
    pub fn length_with_tempo(&self) -> (d: Duration)
        requires
            self.length.wf(),
            self.length.divided(self.controller.tempo_bits) is Some,
        ensures
            d.wf(),
            d.total() == self.length.divided(self.controller.tempo_bits)->0,
    {
        self.controller.duration_at_tempo(self.length)
    }
}

} // verus!
