//! The sample pipeline around a time stretcher.
//!
//! The stretcher works on blocks with one buffer per channel, the source and the sink on single
//! samples of alternating channels. [`Elastic`] stands between them: it lays out the blocks that
//! go in, with silence ahead of the first samples, and queues what comes out, without the delay
//! that the stretcher puts ahead of it. Samples are the patterns of floating-point numbers.

use crate::controller::{ElasticController, PitchTranspose, ONE};
use crate::float_model::Format;
use crate::time::Duration;
use std::collections::VecDeque;
use vstd::prelude::*;

verus! {

/// The pattern of the number zero, which is silence.
pub const SILENCE: u32 = 0;

/// What the next sample of the stretched track is.
#[derive(Clone, Copy, PartialEq, Eq, Structural, Debug)]
pub enum Next {
    /// This sample.
    Sample(u32),
    /// There is none any more.
    End,
    /// Not known before another block has gone through the stretcher.
    Pump,
}

/// State of the pipeline.
#[derive(Debug)]
pub struct Elastic {
    /// The block for the stretcher, one buffer per channel.
    pub in_buffers: Vec<Vec<u32>>,
    /// Samples that are ready to be played.
    pub out_queue: VecDeque<u32>,
    /// Whether the source has given all it has.
    pub source_drained: bool,
    /// Whether the stretcher has given all it has.
    pub stretcher_drained: bool,
    /// How much silence is still to go into the stretcher ahead of the source, per channel.
    pub pad_remaining: usize,
    /// How many of the next samples from the stretcher are its delay, per channel.
    pub discard_remaining: usize,
}

pub open spec fn smaller(a: nat, b: nat) -> nat {
    if a < b {
        a
    } else {
        b
    }
}

/// Silence of a given length.
pub open spec fn silence(n: nat) -> Seq<u32> {
    Seq::new(n, |i: int| SILENCE)
}

/// How many samples of channel `c` are among `len` interleaved samples.
pub open spec fn channel_len(len: nat, channels: nat, c: nat) -> nat {
    if c < len {
        ((len - c - 1) / channels as int + 1) as nat
    } else {
        0
    }
}

/// The samples of channel `c` among interleaved samples.
pub open spec fn channel_samples(samples: Seq<u32>, channels: nat, c: nat) -> Seq<u32> {
    Seq::new(
        channel_len(samples.len(), channels, c),
        |i: int| samples[i * channels + c],
    )
}

/// The first `count` samples of the frames from `from` on, channel by channel in each frame.
pub open spec fn interleaved(buffers: Seq<Seq<u32>>, from: nat, count: nat) -> Seq<u32> {
    Seq::new(
        count,
        |j: int| buffers[j % buffers.len() as int][from + j / buffers.len() as int],
    )
}

/// The buffers as sequences.
pub open spec fn contents(buffers: Seq<Vec<u32>>) -> Seq<Seq<u32>> {
    Seq::new(buffers.len(), |c: int| buffers[c]@)
}

/// How much silence goes ahead of the source in a block of `required` samples per channel.
pub open spec fn block_pad(pad_remaining: nat, required: nat) -> nat {
    smaller(pad_remaining, required)
}

/// How many samples the source is to give for a block.
pub open spec fn block_wanted(pad_remaining: nat, channels: nat, required: nat) -> nat {
    ((required - block_pad(pad_remaining, required)) * channels) as nat
}

/// The block for the stretcher: silence, then the source's samples channel by channel.
pub open spec fn block(pad_remaining: nat, channels: nat, required: nat, pulled: Seq<u32>) -> Seq<
    Seq<u32>,
> {
    Seq::new(
        channels,
        |c: int|
            silence(block_pad(pad_remaining, required)) + channel_samples(
                pulled,
                channels,
                c as nat,
            ),
    )
}

/// The samples that reach the queue from `n` frames of the stretcher.
pub open spec fn kept(discard_remaining: nat, buffers: Seq<Seq<u32>>, n: nat) -> Seq<u32> {
    let discard = smaller(discard_remaining, n);
    interleaved(buffers, discard, ((n - discard) * buffers.len()) as nat)
}

/// How a block with the samples `pulled` from the source changes the pipeline.
pub open spec fn filled(before: Elastic, after: Elastic, required: nat, pulled: Seq<u32>) -> bool {
    let pad = before.pad_remaining as nat;
    let channels = before.in_buffers@.len();
    &&& contents(after.in_buffers@) == block(pad, channels, required, pulled)
    &&& after.pad_remaining == pad - block_pad(pad, required)
    &&& after.source_drained == (before.source_drained || pulled.len() < block_wanted(
        pad,
        channels,
        required,
    ))
    &&& after.out_queue == before.out_queue
    &&& after.stretcher_drained == before.stretcher_drained
    &&& after.discard_remaining == before.discard_remaining
}

/// How what the stretcher says is available changes the pipeline.
pub open spec fn polled(before: Elastic, after: Elastic, available: Option<usize>) -> bool {
    &&& after.stretcher_drained == (before.stretcher_drained || available is None)
    &&& after.in_buffers == before.in_buffers
    &&& after.out_queue == before.out_queue
    &&& after.source_drained == before.source_drained
    &&& after.pad_remaining == before.pad_remaining
    &&& after.discard_remaining == before.discard_remaining
}

/// How `n` samples per channel from the stretcher change the pipeline.
pub open spec fn queued(
    before: Elastic,
    after: Elastic,
    buffers: Seq<Seq<u32>>,
    n: nat,
) -> bool {
    let discard = before.discard_remaining as nat;
    &&& after.out_queue@ == before.out_queue@ + kept(discard, buffers, n)
    &&& after.discard_remaining == discard - smaller(discard, n)
    &&& after.in_buffers == before.in_buffers
    &&& after.source_drained == before.source_drained
    &&& after.stretcher_drained == before.stretcher_drained
    &&& after.pad_remaining == before.pad_remaining
}

/// How asking for the next sample changes the pipeline, and what comes of it.
pub open spec fn taken(before: Elastic, after: Elastic, next: Next) -> bool {
    &&& next == (if before.out_queue@.len() > 0 {
        Next::Sample(before.out_queue@[0])
    } else if before.stretcher_drained {
        Next::End
    } else {
        Next::Pump
    })
    &&& after.out_queue@ == (if before.out_queue@.len() > 0 {
        before.out_queue@.drop_first()
    } else {
        before.out_queue@
    })
    &&& after.in_buffers == before.in_buffers
    &&& after.source_drained == before.source_drained
    &&& after.stretcher_drained == before.stretcher_drained
    &&& after.pad_remaining == before.pad_remaining
    &&& after.discard_remaining == before.discard_remaining
}

/// What has happened at the stretcher or the source since the last step of [`Elastic::pump`].
#[derive(Debug)]
pub enum PumpEvent {
    /// Nothing yet: the pump starts, at this tempo and pitch.
    Started(ElasticController),
    /// The stretcher has taken the ratio and the pitch.
    Tuned,
    /// The stretcher said how many samples per channel it requires.
    Required(usize),
    /// The source gave these samples for a block of so many samples per channel.
    Pulled(usize, Vec<u32>),
    /// The stretcher has taken the block.
    Processed,
    /// The stretcher said how many samples per channel are available, nothing if it is finished.
    Available(Option<usize>),
    /// The stretcher filled the first so many samples of these buffers.
    Retrieved(Vec<Vec<u32>>, usize),
}

/// What is to be done next at the stretcher or the source.
#[derive(Clone, Copy, PartialEq, Eq, Structural, Debug)]
pub enum PumpAction {
    /// Set the stretcher to this time ratio, the pattern of a floating-point number, and to the
    /// pitch scale of this transposition.
    Tune(u64, PitchTranspose),
    /// Ask the stretcher how many samples per channel it requires.
    AskRequired,
    /// Take so many samples from the source, or as many as it still has.
    Pull(usize),
    /// Hand the block to the stretcher, as the last one if the source is drained.
    Process,
    /// Ask the stretcher how many samples per channel are available.
    AskAvailable,
    /// Retrieve up to so many samples per channel from the stretcher.
    Retrieve(usize),
    /// Nothing: the pump is done.
    Done,
}

/// What an event does to the pipeline, and what is to be done next.
pub open spec fn stepped(
    before: Elastic,
    event: PumpEvent,
    after: Elastic,
    action: PumpAction,
) -> bool {
    match event {
        PumpEvent::Started(controller) => after == before && action == PumpAction::Tune(
            Format::Double.quotient(ONE, controller.tempo_bits) as u64,
            controller.transpose,
        ),
        PumpEvent::Tuned => after == before && action == (if before.source_drained {
            PumpAction::AskAvailable
        } else {
            PumpAction::AskRequired
        }),
        PumpEvent::Required(required) => after == before && action == PumpAction::Pull(
            block_wanted(
                before.pad_remaining as nat,
                before.in_buffers@.len(),
                required as nat,
            ) as usize,
        ),
        PumpEvent::Pulled(required, pulled) => filled(before, after, required as nat, pulled@)
            && action == PumpAction::Process,
        PumpEvent::Processed => after == before && action == PumpAction::AskAvailable,
        PumpEvent::Available(available) => polled(before, after, available) && action == (
        match available {
            Some(n) => if n > 0 {
                PumpAction::Retrieve(n)
            } else {
                PumpAction::Done
            },
            None => PumpAction::Done,
        }),
        PumpEvent::Retrieved(buffers, n) => queued(before, after, contents(buffers@), n as nat)
            && action == PumpAction::Done,
    }
}

/// Whether an event is what comes of an action.
pub open spec fn answers(action: PumpAction, event: PumpEvent) -> bool {
    match action {
        PumpAction::Tune(_, _) => event is Tuned,
        PumpAction::AskRequired => event is Required,
        PumpAction::Pull(n) => event is Pulled && event->Pulled_1@.len() <= n,
        PumpAction::Process => event is Processed,
        PumpAction::AskAvailable => event is Available,
        PumpAction::Retrieve(n) => event is Retrieved && event->Retrieved_1 <= n,
        PumpAction::Done => false,
    }
}

/// A run of the pump that starts at the given tempo and pitch, each event after the first what
/// came of the action before: `states` are those before each step and after the last.
pub open spec fn is_pump_run(
    controller: ElasticController,
    states: Seq<Elastic>,
    events: Seq<PumpEvent>,
    actions: Seq<PumpAction>,
) -> bool {
    &&& events.len() == actions.len()
    &&& states.len() == events.len() + 1
    &&& events.len() > 0
    &&& events[0] == PumpEvent::Started(controller)
    &&& forall|i: int|
        #![trigger actions[i]]
        0 <= i < events.len() ==> stepped(states[i], events[i], states[i + 1], actions[i])
    &&& forall|i: int|
        #![trigger events[i]]
        0 < i < events.len() ==> answers(actions[i - 1], events[i])
}

impl Elastic {
    /// Whether an event can be taken in: the source gave no more than was wanted, the buffers
    /// hold what the stretcher says it gave, and counts fit the machine.
    pub open spec fn accepts(self, event: PumpEvent) -> bool {
        match event {
            PumpEvent::Required(required) => block_wanted(
                self.pad_remaining as nat,
                self.in_buffers@.len(),
                required as nat,
            ) <= usize::MAX,
            PumpEvent::Pulled(required, pulled) => pulled@.len() <= block_wanted(
                self.pad_remaining as nat,
                self.in_buffers@.len(),
                required as nat,
            ),
            PumpEvent::Retrieved(buffers, n) => forall|c: int|
                0 <= c < buffers@.len() ==> (#[trigger] buffers@[c])@.len() >= n,
            _ => true,
        }
    }

    /// Whether a track starts here: nothing is queued or drained, and silence and delay are still
    /// to come.
    pub open spec fn is_fresh(self, channels: nat, start_pad: nat, start_delay: nat) -> bool {
        &&& self.in_buffers@.len() == channels
        &&& self.out_queue@.len() == 0
        &&& !self.source_drained
        &&& !self.stretcher_drained
        &&& self.pad_remaining == start_pad
        &&& self.discard_remaining == start_delay
    }

    /// Whether there are no samples any more.
    pub open spec fn is_over(self) -> bool {
        self.stretcher_drained && self.out_queue@.len() == 0
    }

    /// One step of moving samples from the source through the stretcher into the queue: the
    /// stretcher takes the current tempo and pitch, a block goes in unless the source is drained,
    /// then what is available comes out.
    pub fn pump(&mut self, event: PumpEvent) -> (action: PumpAction)
        requires
            old(self).accepts(event),
        ensures
            stepped(*old(self), event, *final(self), action),
    {
        match event {
            PumpEvent::Started(controller) => PumpAction::Tune(
                controller.time_ratio(),
                controller.pitch(),
            ),
            PumpEvent::Tuned => {
                if self.source_drained {
                    PumpAction::AskAvailable
                } else {
                    PumpAction::AskRequired
                }
            },
            PumpEvent::Required(required) => PumpAction::Pull(self.wanted(required)),
            PumpEvent::Pulled(required, pulled) => {
                self.fill(required, &pulled);
                PumpAction::Process
            },
            PumpEvent::Processed => PumpAction::AskAvailable,
            PumpEvent::Available(available) => {
                let n: usize = self.poll(available);
                if n > 0 {
                    PumpAction::Retrieve(n)
                } else {
                    PumpAction::Done
                }
            },
            PumpEvent::Retrieved(buffers, n) => {
                self.enqueue(&buffers, n);
                PumpAction::Done
            },
        }
    }

    /// A pipeline for a stretcher with so many channels that wants `start_pad` samples of silence
    /// first and gives `start_delay` samples of delay first.
    pub fn new(channels: usize, start_pad: usize, start_delay: usize) -> (e: Elastic)
        ensures
            e.is_fresh(channels as nat, start_pad as nat, start_delay as nat),
            forall|c: int| 0 <= c < channels ==> (#[trigger] e.in_buffers@[c])@.len() == 0,
    {
        let mut in_buffers: Vec<Vec<u32>> = Vec::new();
        let mut c: usize = 0;
        while c < channels
            invariant
                c <= channels,
                in_buffers@.len() == c,
                forall|i: int| 0 <= i < c ==> (#[trigger] in_buffers@[i])@.len() == 0,
            decreases channels - c,
        {
            in_buffers.push(Vec::new());
            c = c + 1;
        }
        Elastic {
            in_buffers,
            out_queue: VecDeque::new(),
            source_drained: false,
            stretcher_drained: false,
            pad_remaining: start_pad,
            discard_remaining: start_delay,
        }
    }

    /// How many samples to take from the source for a block of `required` samples per channel.
    pub fn wanted(&self, required: usize) -> (n: usize)
        requires
            block_wanted(
                self.pad_remaining as nat,
                self.in_buffers@.len(),
                required as nat,
            ) <= usize::MAX,
        ensures
            n == block_wanted(
                self.pad_remaining as nat,
                self.in_buffers@.len(),
                required as nat,
            ),
    {
        if self.pad_remaining < required {
            (required - self.pad_remaining) * self.in_buffers.len()
        } else {
            proof {
                let channels: nat = self.in_buffers@.len();
                assert(0 * channels == 0);
            }
            0
        }
    }

    /// Lays out a block of `required` samples per channel from the samples that the source gave,
    /// all that were wanted or as many as it still had.
    pub fn fill(&mut self, required: usize, pulled: &Vec<u32>)
        requires
            pulled@.len() <= block_wanted(
                old(self).pad_remaining as nat,
                old(self).in_buffers@.len(),
                required as nat,
            ),
        ensures
            filled(*old(self), *final(self), required as nat, pulled@),
    {
        let pad: usize = if self.pad_remaining < required {
            self.pad_remaining
        } else {
            required
        };
        let channels: usize = self.in_buffers.len();
        let ghost wanted: nat = block_wanted(
            self.pad_remaining as nat,
            channels as nat,
            required as nat,
        );
        let mut buffers: Vec<Vec<u32>> = Vec::new();
        let mut c: usize = 0;
        while c < channels
            invariant
                c <= channels,
                buffers@.len() == c,
                forall|i: int|
                    0 <= i < c ==> (#[trigger] buffers@[i])@ == silence(pad as nat)
                        + channel_samples(pulled@, channels as nat, i as nat),
            decreases channels - c,
        {
            let buffer: Vec<u32> = channel_buffer(pad, pulled, channels, c);
            buffers.push(buffer);
            c = c + 1;
        }
        assert(contents(buffers@) =~= block(
            self.pad_remaining as nat,
            channels as nat,
            required as nat,
            pulled@,
        ));
        let frames: usize = required - pad;
        if is_short(pulled.len(), frames, channels) {
            self.source_drained = true;
        }
        self.in_buffers = buffers;
        self.pad_remaining = self.pad_remaining - pad;
    }

    /// Takes note of what the stretcher says is available, and tells how many samples per channel
    /// to retrieve from it. Nothing said means that it is finished.
    pub fn poll(&mut self, available: Option<usize>) -> (n: usize)
        ensures
            n == (match available {
                Some(n) => n,
                None => 0,
            }),
            polled(*old(self), *final(self), available),
    {
        match available {
            Some(n) => n,
            None => {
                self.stretcher_drained = true;
                0
            },
        }
    }

    /// Queues the `n` samples per channel that the stretcher gave, after any that are its delay.
    pub fn enqueue(&mut self, out_buffers: &Vec<Vec<u32>>, n: usize)
        requires
            forall|c: int| 0 <= c < out_buffers@.len() ==> (#[trigger] out_buffers@[c])@.len() >= n,
        ensures
            queued(*old(self), *final(self), contents(out_buffers@), n as nat),
    {
        let discard: usize = if self.discard_remaining < n {
            self.discard_remaining
        } else {
            n
        };
        self.discard_remaining = self.discard_remaining - discard;
        let channels: usize = out_buffers.len();
        let ghost buffers: Seq<Seq<u32>> = contents(out_buffers@);
        let ghost before: Seq<u32> = self.out_queue@;
        let ghost start: Elastic = *self;
        let mut i: usize = discard;
        assert(0 * channels == 0) by (nonlinear_arith);
        assert(self.out_queue@ =~= before + interleaved(buffers, discard as nat, 0));
        while i < n
            invariant
                discard <= i <= n,
                channels == out_buffers@.len(),
                buffers == contents(out_buffers@),
                forall|c: int|
                    0 <= c < out_buffers@.len() ==> (#[trigger] out_buffers@[c])@.len() >= n,
                self.out_queue@ == before + interleaved(
                    buffers,
                    discard as nat,
                    ((i - discard) * channels) as nat,
                ),
                self.discard_remaining == start.discard_remaining,
                self.in_buffers == start.in_buffers,
                self.source_drained == start.source_drained,
                self.stretcher_drained == start.stretcher_drained,
                self.pad_remaining == start.pad_remaining,
            decreases n - i,
        {
            let mut c: usize = 0;
            while c < channels
                invariant
                    c <= channels,
                    discard <= i < n,
                    channels == out_buffers@.len(),
                    buffers == contents(out_buffers@),
                    forall|c: int|
                        0 <= c < out_buffers@.len() ==> (#[trigger] out_buffers@[c])@.len() >= n,
                    (i - discard) * channels >= 0,
                    self.out_queue@ == before + interleaved(
                        buffers,
                        discard as nat,
                        ((i - discard) * channels + c) as nat,
                    ),
                    self.discard_remaining == start.discard_remaining,
                    self.in_buffers == start.in_buffers,
                    self.source_drained == start.source_drained,
                    self.stretcher_drained == start.stretcher_drained,
                    self.pad_remaining == start.pad_remaining,
                decreases channels - c,
            {
                let sample: u32 = out_buffers[c][i];
                self.out_queue.push_back(sample);
                proof {
                    let count: nat = ((i - discard) * channels + c) as nat;
                    lemma_position(count as int, channels as int, i - discard, c as int);
                    assert(interleaved(buffers, discard as nat, count + 1) =~= interleaved(
                        buffers,
                        discard as nat,
                        count,
                    ).push(sample));
                }
                c = c + 1;
            }
            proof {
                assert((i - discard) * channels + channels == (i + 1 - discard) * channels)
                    by (nonlinear_arith);
            }
            i = i + 1;
        }
    }

    /// The next sample, if it is known.
    pub fn next(&mut self) -> (r: Next)
        ensures
            taken(*old(self), *final(self), r),
            r == Next::End <==> old(self).is_over(),
    {
        if let Some(sample) = self.out_queue.pop_front() {
            return Next::Sample(sample);
        }
        if self.stretcher_drained {
            Next::End
        } else {
            Next::Pump
        }
    }

    /// Whether there are no samples any more.
    pub fn is_exhausted(&self) -> (r: bool)
        ensures
            r == self.is_over(),
    {
        self.stretcher_drained && self.out_queue.len() == 0
    }

    /// How many samples follow before channel count or sample rate may change: they never do.
    pub fn current_span_len(&self) -> (n: Option<usize>)
        ensures
            n is None,
    {
        None
    }

    /// The length of the stretched track, if that of the source is known.
    pub fn total_duration(&self, controller: &ElasticController, source: Option<Duration>) -> (d:
        Option<Duration>)
        requires
            source is Some ==> source->0.wf() && source->0.divided(controller.tempo_bits) is Some,
        ensures
            d is Some <==> source is Some,
            d is Some ==> d->0.wf() && d->0.total() == source->0.divided(
                controller.tempo_bits,
            )->0,
    {
        match source {
            Some(length) => Some(controller.duration_at_tempo(length)),
            None => None,
        }
    }

    /// Where to seek in the source for a position in the stretched track.
    pub fn seek_target(&self, controller: &ElasticController, pos: Duration) -> (d: Duration)
        requires
            pos.wf(),
            pos.times(controller.tempo_bits) is Some,
        ensures
            d.wf(),
            d.total() == pos.times(controller.tempo_bits)->0,
    {
        controller.duration_from_tempo(pos)
    }

    /// Starts over after the source has been sought to another position, which the stretcher must
    /// not blend with what came before. A source that refused to seek leaves everything as it is.
    pub fn finish_seek(&mut self, sought: bool, start_pad: usize, start_delay: usize)
        ensures
            !sought ==> *final(self) == *old(self),
            sought ==> {
                &&& final(self).is_fresh(
                    old(self).in_buffers@.len(),
                    start_pad as nat,
                    start_delay as nat,
                )
                &&& final(self).in_buffers == old(self).in_buffers
            },
    {
        if sought {
            self.out_queue.clear();
            self.source_drained = false;
            self.stretcher_drained = false;
            self.pad_remaining = start_pad;
            self.discard_remaining = start_delay;
        }
    }
}

/// The buffer of channel `c`: silence, then its samples.
fn channel_buffer(pad: usize, pulled: &Vec<u32>, channels: usize, c: usize) -> (buffer: Vec<u32>)
    requires
        c < channels,
    ensures
        buffer@ == silence(pad as nat) + channel_samples(pulled@, channels as nat, c as nat),
{
    let mut buffer: Vec<u32> = Vec::new();
    let mut i: usize = 0;
    while i < pad
        invariant
            i <= pad,
            buffer@ == silence(i as nat),
        decreases pad - i,
    {
        buffer.push(SILENCE);
        i = i + 1;
        assert(buffer@ =~= silence(i as nat));
    }
    let len: usize = pulled.len();
    let ghost all: Seq<u32> = channel_samples(pulled@, channels as nat, c as nat);
    let ghost mut k: int = 0;
    let mut at: usize = c;
    assert(0 * channels == 0) by (nonlinear_arith);
    proof {
        lemma_channel_len(len as int, channels as int, c as int, 0);
    }
    assert(buffer@ =~= silence(pad as nat) + all.take(0));
    while at < len
        invariant
            len == pulled@.len(),
            c < channels,
            all == channel_samples(pulled@, channels as nat, c as nat),
            0 <= k <= all.len(),
            at < len ==> at == k * channels + c,
            at >= len ==> k == all.len(),
            k * channels + c >= len ==> k == all.len(),
            k * channels + c < len ==> k < all.len(),
            buffer@ == silence(pad as nat) + all.take(k),
        decreases len - at,
    {
        buffer.push(pulled[at]);
        proof {
            assert(buffer@ =~= silence(pad as nat) + all.take(k + 1));
            lemma_channel_len(len as int, channels as int, c as int, k + 1);
            assert((k + 1) * channels == k * channels + channels) by (nonlinear_arith);
            k = k + 1;
        }
        if len - at <= channels {
            at = len;
        } else {
            at = at + channels;
        }
    }
    assert(all.take(k) =~= all);
    buffer
}

/// Whether `len` is less than `frames` times `channels`.
fn is_short(len: usize, frames: usize, channels: usize) -> (r: bool)
    requires
        len <= frames * channels,
    ensures
        r == (len < frames * channels),
{
    let wide: u128 = len as u128;
    proof {
        assert(frames * channels <= 0xffff_ffff_ffff_ffff * 0xffff_ffff_ffff_ffff)
            by (nonlinear_arith)
            requires
                frames <= 0xffff_ffff_ffff_ffff,
                channels <= 0xffff_ffff_ffff_ffff,
        ;
    }
    wide < frames as u128 * channels as u128
}

/// The sample at `count` of interleaved frames is in frame `i`, channel `c`.
proof fn lemma_position(count: int, channels: int, i: int, c: int)
    requires
        0 <= c < channels,
        0 <= i,
        count == i * channels + c,
    ensures
        count / channels == i,
        count % channels == c,
{
    vstd::arithmetic::div_mod::lemma_fundamental_div_mod_converse(count, channels, i, c);
}

/// A channel has a sample in frame `i` where that is among the interleaved samples.
pub proof fn lemma_channel_len(len: int, channels: int, c: int, i: int)
    requires
        0 <= c < channels,
        0 <= len,
        0 <= i,
    ensures
        i * channels + c < len <==> i < channel_len(len as nat, channels as nat, c as nat),
{
    if c < len {
        let x: int = len - c - 1;
        vstd::arithmetic::div_mod::lemma_fundamental_div_mod(x, channels);
        let q: int = x / channels;
        let r: int = x % channels;
        assert(i * channels <= x <==> i <= q) by (nonlinear_arith)
            requires
                x == channels * q + r,
                0 <= r < channels,
        ;
    } else {
        assert(i * channels >= 0) by (nonlinear_arith)
            requires
                i >= 0,
                channels > 0,
        ;
    }
}

} // verus!
