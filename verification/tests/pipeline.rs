use elastic_player::controller::{ElasticController, PitchTranspose};
use elastic_player::elastic::{Elastic, Next, PumpAction, PumpEvent, SILENCE};
use elastic_player::never_stop::{NeverStop, Played};
use elastic_player::time::Duration;

fn span(secs: u64, nanos: u32) -> Duration {
    Duration { secs, nanos }
}

fn sample(x: f32) -> u32 {
    x.to_bits()
}

fn controller(tempo: f64, semitones: i8) -> ElasticController {
    ElasticController::new(tempo.to_bits(), PitchTranspose::new(semitones).unwrap())
}

/// A stretcher that gives back what goes in, in batches of at most `batch` frames, after a delay
/// of silence.
struct Echo {
    required: usize,
    batch: usize,
    channels: Vec<Vec<u32>>,
    last: bool,
}

impl Echo {
    fn new(channels: usize, required: usize, batch: usize, delay: usize) -> Echo {
        Echo {
            required,
            batch,
            channels: vec![vec![SILENCE; delay]; channels],
            last: false,
        }
    }

    fn available(&self) -> Option<usize> {
        let n = self.channels[0].len();
        if n == 0 && self.last {
            None
        } else {
            Some(n.min(self.batch))
        }
    }
}

/// Runs one pump to its end.
fn pump(elastic: &mut Elastic, source: &mut Vec<u32>, echo: &mut Echo) {
    let mut event = PumpEvent::Started(controller(1.0, 0));
    loop {
        event = match elastic.pump(event) {
            PumpAction::Tune(_, _) => PumpEvent::Tuned,
            PumpAction::AskRequired => PumpEvent::Required(echo.required),
            PumpAction::Pull(n) => {
                let n = n.min(source.len());
                PumpEvent::Pulled(echo.required, source.drain(..n).collect())
            }
            PumpAction::Process => {
                let frames = elastic.in_buffers.iter().map(|b| b.len()).min().unwrap();
                for (c, buffer) in elastic.in_buffers.iter().enumerate() {
                    echo.channels[c].extend(&buffer[..frames]);
                }
                echo.last = elastic.source_drained;
                PumpEvent::Processed
            }
            PumpAction::AskAvailable => PumpEvent::Available(echo.available()),
            PumpAction::Retrieve(n) => PumpEvent::Retrieved(
                echo.channels
                    .iter_mut()
                    .map(|c| c.drain(..n).collect())
                    .collect(),
                n,
            ),
            PumpAction::Done => return,
        };
    }
}

fn play(
    channels: usize,
    mut source: Vec<u32>,
    mut echo: Echo,
    pad: usize,
    delay: usize,
) -> Vec<u32> {
    let mut elastic = Elastic::new(channels, pad, delay);
    let mut played = Vec::new();
    loop {
        match elastic.next() {
            Next::Sample(s) => played.push(s),
            Next::End => {
                assert!(elastic.is_exhausted());
                return played;
            }
            Next::Pump => pump(&mut elastic, &mut source, &mut echo),
        }
    }
}

#[test]
fn samples_come_through_in_order() {
    let source: Vec<u32> = (1..=24).collect();
    for required in 1..9 {
        for batch in 1..9 {
            let echo = Echo::new(2, required, batch, 0);
            assert_eq!(play(2, source.clone(), echo, 0, 0), source);
        }
    }
}

#[test]
fn delay_is_dropped_and_padding_comes_through() {
    let source: Vec<u32> = (1..=12).collect();
    for required in 1..6 {
        for batch in 1..6 {
            // a stretcher that wants three frames of padding and delays by as much
            let echo = Echo::new(3, required, batch, 0);
            assert_eq!(play(3, source.clone(), echo, 3, 3), source);
            let echo = Echo::new(3, required, batch, 2);
            let mut padded = vec![SILENCE; 6];
            padded.extend(&source);
            assert_eq!(play(3, source.clone(), echo, 2, 2), padded);
        }
    }
}

#[test]
fn blocks_are_taken_apart_by_channel() {
    let mut elastic = Elastic::new(2, 1, 0);
    assert_eq!(elastic.wanted(4), 6);
    elastic.fill(4, &vec![1, 2, 3, 4, 5, 6]);
    assert_eq!(elastic.in_buffers, vec![vec![SILENCE, 1, 3, 5], vec![SILENCE, 2, 4, 6]]);
    assert!(!elastic.source_drained);
    assert_eq!(elastic.pad_remaining, 0);
    // a frame that the source leaves unfinished
    assert_eq!(elastic.wanted(4), 8);
    elastic.fill(4, &vec![7, 8, 9]);
    assert_eq!(elastic.in_buffers, vec![vec![7, 9], vec![8]]);
    assert!(elastic.source_drained);
}

#[test]
fn padding_may_take_more_than_a_block() {
    let mut elastic = Elastic::new(1, 5, 0);
    assert_eq!(elastic.wanted(3), 0);
    elastic.fill(3, &vec![]);
    assert_eq!(elastic.in_buffers, vec![vec![SILENCE; 3]]);
    assert!(!elastic.source_drained);
    assert_eq!(elastic.pad_remaining, 2);
}

#[test]
fn the_stretcher_is_tuned_first() {
    let mut elastic = Elastic::new(1, 0, 0);
    assert_eq!(
        elastic.pump(PumpEvent::Started(controller(2.0, 5))),
        PumpAction::Tune(0.5f64.to_bits(), PitchTranspose::new(5).unwrap())
    );
    assert_eq!(
        elastic.pump(PumpEvent::Started(controller(0.8, -12))),
        PumpAction::Tune((1.0 / 0.8f64).to_bits(), PitchTranspose::new(-12).unwrap())
    );
}

#[test]
fn a_pump_takes_at_most_seven_steps() {
    let mut elastic = Elastic::new(1, 0, 0);
    let events = [
        PumpEvent::Started(controller(1.0, 0)),
        PumpEvent::Tuned,
        PumpEvent::Required(2),
        PumpEvent::Pulled(2, vec![1, 2]),
        PumpEvent::Processed,
        PumpEvent::Available(Some(2)),
        PumpEvent::Retrieved(vec![vec![1, 2]], 2),
    ];
    let actions: Vec<PumpAction> = events.into_iter().map(|e| elastic.pump(e)).collect();
    assert!(matches!(actions[0], PumpAction::Tune(_, _)));
    assert_eq!(
        actions[1..],
        [
            PumpAction::AskRequired,
            PumpAction::Pull(2),
            PumpAction::Process,
            PumpAction::AskAvailable,
            PumpAction::Retrieve(2),
            PumpAction::Done,
        ]
    );
}

#[test]
fn taking_in_between_changes_nothing() {
    let mut elastic = Elastic::new(2, 0, 3);
    let mut taken = Vec::new();
    let batches = [
        (vec![vec![1, 3], vec![2, 4]], 2),
        (vec![vec![5, 7, 9], vec![6, 8, 10]], 3),
        (vec![vec![11], vec![12]], 1),
    ];
    for (buffers, n) in batches {
        elastic.enqueue(&buffers, n);
        if let Next::Sample(s) = elastic.next() {
            taken.push(s);
        }
    }
    while let Next::Sample(s) = elastic.next() {
        taken.push(s);
    }
    assert_eq!(taken, [7, 8, 9, 10, 11, 12]);
}

#[test]
fn blocks_add_up_to_one_block() {
    let source: Vec<u32> = (1..=13).collect();
    let mut whole = Elastic::new(2, 3, 0);
    whole.fill(10, &source);
    let mut parts = Elastic::new(2, 3, 0);
    let mut rest = source.clone();
    let mut channels: Vec<Vec<u32>> = vec![Vec::new(), Vec::new()];
    for required in [2, 4, 1, 3] {
        let n = parts.wanted(required).min(rest.len());
        parts.fill(required, &rest.drain(..n).collect());
        for (all, buffer) in channels.iter_mut().zip(&parts.in_buffers) {
            all.extend(buffer);
        }
    }
    assert_eq!(channels, whole.in_buffers);
    assert_eq!(parts.pad_remaining, whole.pad_remaining);
    assert!(parts.source_drained && whole.source_drained);
}

#[test]
fn a_drained_source_is_not_asked_again() {
    let mut elastic = Elastic::new(1, 0, 0);
    assert_eq!(elastic.pump(PumpEvent::Tuned), PumpAction::AskRequired);
    assert_eq!(elastic.pump(PumpEvent::Required(2)), PumpAction::Pull(2));
    assert_eq!(
        elastic.pump(PumpEvent::Pulled(2, vec![])),
        PumpAction::Process
    );
    assert_eq!(elastic.pump(PumpEvent::Processed), PumpAction::AskAvailable);
    assert_eq!(elastic.pump(PumpEvent::Available(Some(0))), PumpAction::Done);
    assert_eq!(elastic.next(), Next::Pump);
    assert_eq!(elastic.pump(PumpEvent::Tuned), PumpAction::AskAvailable);
    assert_eq!(elastic.pump(PumpEvent::Available(None)), PumpAction::Done);
    assert_eq!(elastic.next(), Next::End);
}

#[test]
fn output_is_put_together_by_frame() {
    let mut elastic = Elastic::new(2, 0, 1);
    elastic.enqueue(&vec![vec![1, 3, 5, 99], vec![2, 4, 6, 99]], 3);
    assert_eq!(elastic.discard_remaining, 0);
    assert_eq!(elastic.next(), Next::Sample(3));
    assert_eq!(elastic.next(), Next::Sample(4));
    assert_eq!(elastic.next(), Next::Sample(5));
    assert_eq!(elastic.next(), Next::Sample(6));
    assert_eq!(elastic.next(), Next::Pump);
}

#[test]
fn batches_do_not_matter() {
    let mut at_once = Elastic::new(2, 0, 3);
    at_once.enqueue(&vec![vec![1, 3, 5, 7, 9], vec![2, 4, 6, 8, 10]], 5);
    let mut in_two = Elastic::new(2, 0, 3);
    in_two.enqueue(&vec![vec![1, 3], vec![2, 4]], 2);
    in_two.enqueue(&vec![vec![5, 7, 9], vec![6, 8, 10]], 3);
    assert_eq!(at_once.out_queue, in_two.out_queue);
    assert_eq!(at_once.discard_remaining, in_two.discard_remaining);
}

#[test]
fn seeking_starts_over() {
    let mut elastic = Elastic::new(1, 0, 0);
    elastic.enqueue(&vec![vec![1, 2, 3]], 3);
    elastic.poll(None);
    elastic.fill(2, &vec![]);
    assert!(elastic.source_drained && elastic.stretcher_drained);
    elastic.finish_seek(false, 4, 5);
    assert_eq!(elastic.out_queue.len(), 3);
    assert!(elastic.source_drained && elastic.stretcher_drained);
    elastic.finish_seek(true, 4, 5);
    assert_eq!(elastic.out_queue.len(), 0);
    assert!(!elastic.source_drained && !elastic.stretcher_drained);
    assert_eq!((elastic.pad_remaining, elastic.discard_remaining), (4, 5));
    assert!(!elastic.is_exhausted());
}

#[test]
fn lengths_and_seeks_go_by_the_tempo() {
    let elastic = Elastic::new(2, 0, 0);
    let controller = controller(2.0, 0);
    assert_eq!(
        elastic.total_duration(&controller, Some(span(10, 0))),
        Some(span(5, 0))
    );
    assert_eq!(elastic.total_duration(&controller, None), None);
    assert_eq!(elastic.seek_target(&controller, span(3, 0)), span(6, 0));
    assert_eq!(elastic.current_span_len(), None);
}

#[test]
fn a_track_goes_on_in_silence() {
    let mut source = NeverStop::new();
    assert!(source.needs_source());
    assert_eq!(source.current_span_len(Some(7)), Some(7));
    assert_eq!(
        source.next(Some(sample(0.5))),
        Played { sample: sample(0.5), announce: false }
    );
    assert_eq!(source.next(None), Played { sample: SILENCE, announce: true });
    assert!(!source.needs_source());
    assert_eq!(source.next(None), Played { sample: SILENCE, announce: false });
    assert_eq!(source.next(None), Played { sample: SILENCE, announce: false });
    assert_eq!(source.current_span_len(Some(7)), None);
    assert!(!source.is_exhausted());
    assert_eq!(SILENCE, 0f32.to_bits());
}

#[test]
fn seeks_past_the_end_are_cut_short_and_end_the_track() {
    let mut source = NeverStop::new();
    let total = Some(span(10, 0));
    assert_eq!(source.seek_target(span(12, 0), total), span(10, 0));
    assert_eq!(source.seek_target(span(9, 0), total), span(9, 0));
    assert_eq!(source.seek_target(span(12, 0), None), span(12, 0));
    assert!(source.finish_seek(true, span(10, 0), total));
    assert!(source.ended);
    assert!(!source.finish_seek(true, span(0, 0), total));
    assert!(!source.ended);
    assert!(!source.finish_seek(true, span(12, 0), None));
    assert!(!source.ended);
}

#[test]
fn a_refused_seek_changes_nothing() {
    let mut source = NeverStop { ended: true };
    assert!(!source.finish_seek(false, span(0, 0), Some(span(10, 0))));
    assert!(source.ended);
    let mut source = NeverStop::new();
    assert!(!source.finish_seek(false, span(12, 0), Some(span(10, 0))));
    assert!(!source.ended);
}
