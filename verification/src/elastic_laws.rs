//! What holds of the sample pipeline however the stretcher cuts the track into blocks.

use crate::controller::{ElasticController, ONE};
use crate::elastic::{
    answers, block, block_pad, block_wanted, channel_len, channel_samples, contents, interleaved,
    is_pump_run, kept, lemma_channel_len, silence, smaller, stepped, taken, Elastic, Next,
    PumpAction, PumpEvent,
};
use crate::float_model::Format;
use vstd::prelude::*;

verus! {

/// The channels of interleaved samples.
pub open spec fn channels_of(samples: Seq<u32>, channels: nat) -> Seq<Seq<u32>> {
    Seq::new(channels, |c: int| channel_samples(samples, channels, c as nat))
}

/// Two runs of buffers, one after the other, the first `n` samples of each buffer from the
/// first.
pub open spec fn joined(first: Seq<Seq<u32>>, n: nat, second: Seq<Seq<u32>>) -> Seq<Seq<u32>> {
    Seq::new(first.len(), |c: int| first[c].take(n as int) + second[c])
}

/// Taking samples apart by channel and putting them together again gives the same samples.
pub proof fn law_channels_round_trip(samples: Seq<u32>, channels: nat, frames: nat)
    requires
        channels > 0,
        samples.len() == frames * channels,
    ensures
        interleaved(channels_of(samples, channels), 0, samples.len()) == samples,
{
    let buffers: Seq<Seq<u32>> = channels_of(samples, channels);
    assert forall|j: int| 0 <= j < samples.len() implies interleaved(
        buffers,
        0,
        samples.len(),
    )[j] == samples[j] by {
        let n: int = channels as int;
        let i: int = j / n;
        let c: int = j % n;
        vstd::arithmetic::div_mod::lemma_fundamental_div_mod(j, n);
        assert(n * i == i * n) by (nonlinear_arith);
        assert(i >= 0) by (nonlinear_arith)
            requires
                j == i * n + c,
                j >= 0,
                0 <= c < n,
        ;
        lemma_channel_len(samples.len() as int, n, c, i);
    }
    assert(interleaved(buffers, 0, samples.len()) =~= samples);
}

/// Through a stretcher that changes nothing and delays by as much as it is padded, samples come
/// as they went in.
pub proof fn law_unstretched_samples_come_back(
    pulled: Seq<u32>,
    channels: nat,
    frames: nat,
    pad: nat,
)
    requires
        channels > 0,
        pulled.len() == frames * channels,
    ensures
        block_wanted(pad, channels, pad + frames) == pulled.len(),
        kept(pad, block(pad, channels, pad + frames, pulled), pad + frames) == pulled,
{
    let buffers: Seq<Seq<u32>> = block(pad, channels, pad + frames, pulled);
    let bare: Seq<Seq<u32>> = channels_of(pulled, channels);
    law_channels_round_trip(pulled, channels, frames);
    let out: Seq<u32> = kept(pad, buffers, pad + frames);
    assert forall|j: int| 0 <= j < pulled.len() implies out[j] == interleaved(
        bare,
        0,
        pulled.len(),
    )[j] by {
        let n: int = channels as int;
        let i: int = j / n;
        let c: int = j % n;
        vstd::arithmetic::div_mod::lemma_fundamental_div_mod(j, n);
        assert(n * i == i * n) by (nonlinear_arith);
        assert(i >= 0) by (nonlinear_arith)
            requires
                j == i * n + c,
                j >= 0,
                0 <= c < n,
        ;
        lemma_channel_len(pulled.len() as int, n, c, i);
        assert(buffers[c][pad + i] == bare[c][i]);
    }
    assert(out =~= pulled);
}

/// What reaches the queue does not depend on how the stretcher cuts its output into batches:
/// two batches give the same samples as both at once.
pub proof fn law_output_batches(
    discard: nat,
    first: Seq<Seq<u32>>,
    n: nat,
    second: Seq<Seq<u32>>,
    m: nat,
)
    requires
        first.len() > 0,
        first.len() == second.len(),
        forall|c: int| 0 <= c < first.len() ==> (#[trigger] first[c]).len() >= n,
        forall|c: int| 0 <= c < second.len() ==> (#[trigger] second[c]).len() >= m,
    ensures
        kept(discard, first, n) + kept((discard - smaller(discard, n)) as nat, second, m) == kept(
            discard,
            joined(first, n, second),
            n + m,
        ),
        (discard - smaller(discard, n)) - smaller((discard - smaller(discard, n)) as nat, m)
            == discard - smaller(discard, n + m),
{
    let k: int = first.len() as int;
    let both: Seq<Seq<u32>> = joined(first, n, second);
    let d1: nat = smaller(discard, n);
    let left: nat = (discard - d1) as nat;
    let d2: nat = smaller(left, m);
    let d: nat = smaller(discard, n + m);
    assert(d == d1 + d2);
    let a: Seq<u32> = kept(discard, first, n);
    let b: Seq<u32> = kept(left, second, m);
    let whole: Seq<u32> = kept(discard, both, n + m);
    let la: int = (n - d1) * k;
    let lb: int = (m - d2) * k;
    assert(la + lb == (n + m - d) * k) by (nonlinear_arith)
        requires
            la == (n - d1) * k,
            lb == (m - d2) * k,
            d == d1 + d2,
    ;
    assert(la >= 0 && lb >= 0) by (nonlinear_arith)
        requires
            la == (n - d1) * k,
            lb == (m - d2) * k,
            n >= d1,
            m >= d2,
            k > 0,
    ;
    assert forall|j: int| 0 <= j < whole.len() implies (a + b)[j] == whole[j] by {
        let i: int = j / k;
        let c: int = j % k;
        vstd::arithmetic::div_mod::lemma_fundamental_div_mod(j, k);
        assert(k * i == i * k) by (nonlinear_arith);
        assert(i >= 0) by (nonlinear_arith)
            requires
                j == i * k + c,
                j >= 0,
                0 <= c < k,
        ;
        if j < la {
            // Something of the first batch is kept, so all that is dropped is in it.
            assert(n - d1 > 0) by (nonlinear_arith)
                requires
                    la == (n - d1) * k,
                    la > 0,
                    k > 0,
            ;
            assert(d2 == 0);
            assert(i < n - d1) by (nonlinear_arith)
                requires
                    i * k + c < (n - d1) * k,
                    0 <= c < k,
            ;
            assert(both[c][d + i] == first[c][d1 + i]);
        } else {
            let j2: int = j - la;
            let i2: int = i - (n - d1);
            assert(j2 == i2 * k + c) by (nonlinear_arith)
                requires
                    j == i * k + c,
                    j2 == j - la,
                    la == (n - d1) * k,
                    i2 == i - (n - d1),
            ;
            assert(i2 >= 0) by (nonlinear_arith)
                requires
                    j2 == i2 * k + c,
                    j2 >= 0,
                    0 <= c < k,
            ;
            vstd::arithmetic::div_mod::lemma_fundamental_div_mod_converse(j2, k, i2, c);
            assert(i2 < m - d2) by (nonlinear_arith)
                requires
                    i2 * k + c < (m - d2) * k,
                    0 <= c < k,
            ;
            assert(b[j2] == second[c][d2 + i2]);
            assert(first[c].len() >= n);
            assert(both[c][d + i] == second[c][d + i - n]);
            assert(d + i - n == d2 + i2);
        }
    }
    assert(a + b =~= whole);
}

/// What goes into the stretcher does not depend on how it cuts its input into blocks: as long as
/// the source lasts, two blocks give each channel the same samples as one block of both sizes,
/// with the same silence ahead.
pub proof fn law_input_blocks(
    pad: nat,
    channels: nat,
    r1: nat,
    pulled1: Seq<u32>,
    r2: nat,
    pulled2: Seq<u32>,
    c: nat,
)
    requires
        c < channels,
        pulled1.len() == block_wanted(pad, channels, r1),
        pulled2.len() <= block_wanted((pad - block_pad(pad, r1)) as nat, channels, r2),
    ensures
        block(pad, channels, r1, pulled1)[c as int] + block(
            (pad - block_pad(pad, r1)) as nat,
            channels,
            r2,
            pulled2,
        )[c as int] == block(pad, channels, r1 + r2, pulled1 + pulled2)[c as int],
        block_wanted(pad, channels, r1) + block_wanted(
            (pad - block_pad(pad, r1)) as nat,
            channels,
            r2,
        ) == block_wanted(pad, channels, r1 + r2),
{
    let p1: nat = block_pad(pad, r1);
    let left: nat = (pad - p1) as nat;
    let p2: nat = block_pad(left, r2);
    let p: nat = block_pad(pad, r1 + r2);
    let f: nat = (r1 - p1) as nat;
    let n: int = channels as int;
    assert(p == p1 + p2);
    assert((r1 - p1) * n + (r2 - p2) * n == (r1 + r2 - p) * n) by (nonlinear_arith)
        requires
            p == p1 + p2,
    ;
    let all: Seq<u32> = pulled1 + pulled2;
    assert(pulled1.len() == f * channels);
    assert(f * channels == f * n) by (nonlinear_arith)
        requires
            n == channels,
    ;
    let s1: Seq<u32> = channel_samples(pulled1, channels, c);
    let s2: Seq<u32> = channel_samples(pulled2, channels, c);
    let s: Seq<u32> = channel_samples(all, channels, c);
    lemma_whole_frames(f as int, n, c as int, pulled2.len() as int);
    assert forall|i: int| 0 <= i < s.len() implies (s1 + s2)[i] == s[i] by {
        if i < f {
            assert(i * n + c < f * n) by (nonlinear_arith)
                requires
                    0 <= i < f,
                    0 <= c < n,
            ;
            assert(i * n >= 0) by (nonlinear_arith)
                requires
                    i >= 0,
                    n > 0,
            ;
        } else {
            let i2: int = i - f;
            assert(i * n + c == f * n + (i2 * n + c)) by (nonlinear_arith)
                requires
                    i2 == i - f,
            ;
            assert(i2 * n >= 0) by (nonlinear_arith)
                requires
                    i2 >= 0,
                    n > 0,
            ;
            lemma_channel_len(pulled2.len() as int, n, c as int, i2);
            assert(s2[i2] == pulled2[i2 * n + c]);
        }
    }
    assert(s1 + s2 =~= s);
    if p2 > 0 {
        // Padding that reaches into the second block leaves nothing wanted in the first.
        assert(f == 0);
        assert(0 * channels == 0);
        assert(s1.len() == 0);
        assert(silence(p1) + s1 + (silence(p2) + s2) =~= silence(p) + s);
    } else {
        assert(silence(p1) + s1 + (silence(p2) + s2) =~= silence(p) + s);
    }
}

/// How many samples each channel has in `f` whole frames, alone and followed by more.
proof fn lemma_whole_frames(f: int, n: int, c: int, more: int)
    requires
        0 <= f,
        0 <= c < n,
        0 <= more,
    ensures
        f * n >= 0,
        channel_len((f * n) as nat, n as nat, c as nat) == f,
        channel_len((f * n + more) as nat, n as nat, c as nat) == f + channel_len(
            more as nat,
            n as nat,
            c as nat,
        ),
{
    assert(f * n >= 0) by (nonlinear_arith)
        requires
            f >= 0,
            n > 0,
    ;
    if f > 0 {
        assert(f * n >= n) by (nonlinear_arith)
            requires
                f >= 1,
                n > 0,
        ;
        let x: int = f * n - c - 1;
        assert(x == (f - 1) * n + (n - c - 1)) by (nonlinear_arith)
            requires
                x == f * n - c - 1,
        ;
        vstd::arithmetic::div_mod::lemma_fundamental_div_mod_converse(x, n, f - 1, n - c - 1);
    } else {
        assert(f * n == 0) by (nonlinear_arith)
            requires
                f == 0,
        ;
    }
    if c < more {
        let y: int = more - c - 1;
        vstd::arithmetic::div_mod::lemma_fundamental_div_mod(y, n);
        let z: int = f * n + more - c - 1;
        assert(z == (f + y / n) * n + y % n) by (nonlinear_arith)
            requires
                z == f * n + y,
                y == n * (y / n) + y % n,
        ;
        vstd::arithmetic::div_mod::lemma_fundamental_div_mod_converse(z, n, f + y / n, y % n);
    } else if f > 0 {
        let z: int = f * n + more - c - 1;
        assert(z == (f - 1) * n + (n + more - c - 1)) by (nonlinear_arith)
            requires
                z == f * n + more - c - 1,
        ;
        vstd::arithmetic::div_mod::lemma_fundamental_div_mod_converse(
            z,
            n,
            f - 1,
            n + more - c - 1,
        );
    }
}

/// How far a pump has come after an action.
spec fn pump_rank(action: PumpAction) -> nat {
    match action {
        PumpAction::Tune(_, _) => 1,
        PumpAction::AskRequired => 2,
        PumpAction::Pull(_) => 3,
        PumpAction::Process => 4,
        PumpAction::AskAvailable => 5,
        PumpAction::Retrieve(_) => 6,
        PumpAction::Done => 7,
    }
}

/// The actions of a pump come in a fixed order, the first before all others.
proof fn lemma_pump_order(
    controller: ElasticController,
    states: Seq<Elastic>,
    events: Seq<PumpEvent>,
    actions: Seq<PumpAction>,
    i: int,
)
    requires
        is_pump_run(controller, states, events, actions),
        0 <= i < actions.len(),
    ensures
        pump_rank(actions[i]) > i,
        i > 0 ==> !(actions[i] is Tune),
    decreases i,
{
    assert(stepped(states[i], events[i], states[i + 1], actions[i]));
    if i > 0 {
        lemma_pump_order(controller, states, events, actions, i - 1);
        assert(answers(actions[i - 1], events[i]));
    }
}

/// Every run of the pump begins by setting the stretcher to the tempo and pitch of that moment,
/// before any samples are processed, and sets it only then. It is done after at most seven steps.
pub proof fn law_pump_tunes_first(
    controller: ElasticController,
    states: Seq<Elastic>,
    events: Seq<PumpEvent>,
    actions: Seq<PumpAction>,
)
    requires
        is_pump_run(controller, states, events, actions),
    ensures
        actions[0] == PumpAction::Tune(
            Format::Double.quotient(ONE, controller.tempo_bits) as u64,
            controller.transpose,
        ),
        forall|i: int|
            0 < i < actions.len() ==> !((#[trigger] actions[i]) is Tune),
        actions.len() <= 7,
        actions.len() == 7 ==> actions[6] is Done,
{
    assert(stepped(states[0], events[0], states[1], actions[0]));
    assert forall|i: int| 0 < i < actions.len() implies !((#[trigger] actions[i]) is Tune) by {
        lemma_pump_order(controller, states, events, actions, i);
    }
    if actions.len() >= 7 {
        lemma_pump_order(controller, states, events, actions, 6);
    }
    if actions.len() > 7 {
        lemma_pump_order(controller, states, events, actions, 7);
    }
}

/// What is done with a pipeline: a step of the pump, or asking for the next sample.
pub enum Use {
    Pump(PumpEvent, PumpAction),
    Take(Next),
}

/// How a use changes the pipeline, by the contracts of [`Elastic::pump`] and [`Elastic::next`].
pub open spec fn used(before: Elastic, step: Use, after: Elastic) -> bool {
    match step {
        Use::Pump(event, action) => before.accepts(event) && stepped(before, event, after, action),
        Use::Take(next) => taken(before, after, next),
    }
}

/// Whether `states` are those of a pipeline before each of the uses and after the last, where the
/// stretcher gives as many buffers as there are channels and a block goes in only while the source
/// is not drained.
pub open spec fn is_played(states: Seq<Elastic>, steps: Seq<Use>, channels: nat) -> bool {
    &&& states.len() == steps.len() + 1
    &&& forall|i: int|
        #![trigger steps[i]]
        0 <= i < steps.len() ==> {
            &&& used(states[i], steps[i], states[i + 1])
            &&& steps[i] matches Use::Pump(PumpEvent::Retrieved(buffers, _), _) ==> buffers@.len()
                == channels
            &&& steps[i] matches Use::Pump(PumpEvent::Pulled(_, _), _) ==> !states[i].source_drained
        }
}

/// The samples that were taken.
pub open spec fn samples_of(steps: Seq<Use>) -> Seq<u32>
    decreases steps.len(),
{
    if steps.len() == 0 {
        Seq::empty()
    } else {
        let before = samples_of(steps.drop_last());
        match steps.last() {
            Use::Take(Next::Sample(sample)) => before.push(sample),
            _ => before,
        }
    }
}

/// The number of samples per channel that the stretcher gave.
pub open spec fn frames_of(steps: Seq<Use>) -> nat
    decreases steps.len(),
{
    if steps.len() == 0 {
        0
    } else {
        let before = frames_of(steps.drop_last());
        match steps.last() {
            Use::Pump(PumpEvent::Retrieved(_, n), _) => before + n as nat,
            _ => before,
        }
    }
}

/// All that the stretcher gave, as if at once.
pub open spec fn output_of(steps: Seq<Use>, channels: nat) -> Seq<Seq<u32>>
    decreases steps.len(),
{
    if steps.len() == 0 {
        Seq::new(channels, |c: int| Seq::empty())
    } else {
        let before = output_of(steps.drop_last(), channels);
        match steps.last() {
            Use::Pump(PumpEvent::Retrieved(buffers, _), _) => joined(
                before,
                frames_of(steps.drop_last()),
                contents(buffers@),
            ),
            _ => before,
        }
    }
}

/// The number of samples per channel that the stretcher required.
pub open spec fn required_of(steps: Seq<Use>) -> nat
    decreases steps.len(),
{
    if steps.len() == 0 {
        0
    } else {
        let before = required_of(steps.drop_last());
        match steps.last() {
            Use::Pump(PumpEvent::Pulled(required, _), _) => before + required as nat,
            _ => before,
        }
    }
}

/// All samples that the source gave.
pub open spec fn pulled_of(steps: Seq<Use>) -> Seq<u32>
    decreases steps.len(),
{
    if steps.len() == 0 {
        Seq::empty()
    } else {
        let before = pulled_of(steps.drop_last());
        match steps.last() {
            Use::Pump(PumpEvent::Pulled(_, pulled), _) => before + pulled@,
            _ => before,
        }
    }
}

/// All that was laid out for channel `c` of the stretcher, block after block.
pub open spec fn input_of(states: Seq<Elastic>, steps: Seq<Use>, c: int) -> Seq<u32>
    decreases steps.len(),
{
    if steps.len() == 0 {
        Seq::empty()
    } else {
        let before = input_of(states.drop_last(), steps.drop_last(), c);
        match steps.last() {
            Use::Pump(PumpEvent::Pulled(_, _), _) => before + contents(
                states.last().in_buffers@,
            )[c],
            _ => before,
        }
    }
}

/// What was done before the last use is a run too.
proof fn lemma_played_before(states: Seq<Elastic>, steps: Seq<Use>, channels: nat)
    requires
        is_played(states, steps, channels),
        steps.len() > 0,
    ensures
        is_played(states.drop_last(), steps.drop_last(), channels),
        used(states[steps.len() - 1], steps.last(), states.last()),
        steps.last() matches Use::Pump(PumpEvent::Retrieved(buffers, _), _) ==> buffers@.len()
            == channels,
        steps.last() matches Use::Pump(PumpEvent::Pulled(_, _), _) ==> !states[steps.len()
            - 1].source_drained,
        states.drop_last().last() == states[steps.len() - 1],
        states.drop_last()[0] == states[0],
{
    let earlier: Seq<Use> = steps.drop_last();
    let ahead: Seq<Elastic> = states.drop_last();
    assert forall|i: int|
        #![trigger earlier[i]]
        0 <= i < earlier.len() implies {
        &&& used(ahead[i], earlier[i], ahead[i + 1])
        &&& earlier[i] matches Use::Pump(PumpEvent::Retrieved(buffers, _), _) ==> buffers@.len()
            == channels
        &&& earlier[i] matches Use::Pump(PumpEvent::Pulled(_, _), _) ==> !ahead[i].source_drained
    } by {
        assert(earlier[i] == steps[i]);
        assert(ahead[i] == states[i] && ahead[i + 1] == states[i + 1]);
    }
    assert(steps[steps.len() - 1] == steps.last());
}

/// However the stretcher gives its output and samples are taken, what has been taken and what is
/// still queued together are what all of the output at once would give: every sample after the
/// delay once, in order. When the pipeline says that it has ended, all of them have been taken.
pub proof fn law_output_run(
    states: Seq<Elastic>,
    steps: Seq<Use>,
    channels: nat,
    pad: nat,
    delay: nat,
)
    requires
        channels > 0,
        is_played(states, steps, channels),
        states[0].is_fresh(channels, pad, delay),
    ensures
        samples_of(steps) + states.last().out_queue@ == kept(
            delay,
            output_of(steps, channels),
            frames_of(steps),
        ),
        states.last().discard_remaining == delay - smaller(delay, frames_of(steps)),
        states.last().out_queue@.len() == 0 || (steps.len() > 0 && steps.last() == Use::Take(
            Next::End,
        )) ==> samples_of(steps) == kept(delay, output_of(steps, channels), frames_of(steps)),
{
    lemma_output_run(states, steps, channels, pad, delay);
    if steps.len() > 0 && steps.last() == Use::Take(Next::End) {
        lemma_played_before(states, steps, channels);
    }
    if states.last().out_queue@.len() == 0 {
        assert(samples_of(steps) + states.last().out_queue@ =~= samples_of(steps));
    }
}

/// The induction behind [`law_output_run`].
proof fn lemma_output_run(
    states: Seq<Elastic>,
    steps: Seq<Use>,
    channels: nat,
    pad: nat,
    delay: nat,
)
    requires
        channels > 0,
        is_played(states, steps, channels),
        states[0].is_fresh(channels, pad, delay),
    ensures
        ({
            let n = frames_of(steps);
            let all = output_of(steps, channels);
            &&& samples_of(steps) + states.last().out_queue@ == kept(delay, all, n)
            &&& states.last().discard_remaining == delay - smaller(delay, n)
            &&& all.len() == channels
            &&& forall|c: int| 0 <= c < channels ==> (#[trigger] all[c]).len() >= n
        }),
    decreases steps.len(),
{
    let after: Elastic = states.last();
    if steps.len() == 0 {
        let all: Seq<Seq<u32>> = output_of(steps, channels);
        assert(0 * channels == 0);
        assert(samples_of(steps) + after.out_queue@ =~= kept(delay, all, 0));
    } else {
        let earlier: Seq<Use> = steps.drop_last();
        let before: Elastic = states[steps.len() - 1];
        lemma_played_before(states, steps, channels);
        lemma_output_run(states.drop_last(), earlier, channels, pad, delay);
        match steps.last() {
            Use::Pump(PumpEvent::Retrieved(buffers, n), _) => {
                let all: Seq<Seq<u32>> = output_of(earlier, channels);
                let given: Seq<Seq<u32>> = contents(buffers@);
                assert forall|c: int| 0 <= c < given.len() implies (#[trigger] given[c]).len()
                    >= n by {
                    assert(given[c] == buffers@[c]@);
                }
                law_output_batches(delay, all, frames_of(earlier), given, n as nat);
                assert(samples_of(steps) + after.out_queue@ =~= (samples_of(earlier)
                    + before.out_queue@) + kept(
                    before.discard_remaining as nat,
                    given,
                    n as nat,
                ));
            },
            Use::Take(Next::Sample(sample)) => {
                assert(samples_of(steps) + after.out_queue@ =~= samples_of(earlier)
                    + before.out_queue@);
            },
            _ => {},
        }
    }
}

/// However the stretcher requires its input, each of its channels gets the silence and then its
/// samples of all that the source gave, as in one block. The source counts as drained when it has
/// given less than was wanted, and not before.
pub proof fn law_input_run(
    states: Seq<Elastic>,
    steps: Seq<Use>,
    channels: nat,
    pad: nat,
    delay: nat,
    c: nat,
)
    requires
        c < channels,
        is_played(states, steps, channels),
        states[0].is_fresh(channels, pad, delay),
    ensures
        input_of(states, steps, c as int) == block(
            pad,
            channels,
            required_of(steps),
            pulled_of(steps),
        )[c as int],
        states.last().pad_remaining == pad - block_pad(pad, required_of(steps)),
        pulled_of(steps).len() <= block_wanted(pad, channels, required_of(steps)),
        states.last().source_drained <==> pulled_of(steps).len() < block_wanted(
            pad,
            channels,
            required_of(steps),
        ),
{
    lemma_input_run(states, steps, channels, pad, delay, c);
}

/// The induction behind [`law_input_run`].
proof fn lemma_input_run(
    states: Seq<Elastic>,
    steps: Seq<Use>,
    channels: nat,
    pad: nat,
    delay: nat,
    c: nat,
)
    requires
        c < channels,
        is_played(states, steps, channels),
        states[0].is_fresh(channels, pad, delay),
    ensures
        input_of(states, steps, c as int) == block(
            pad,
            channels,
            required_of(steps),
            pulled_of(steps),
        )[c as int],
        states.last().in_buffers@.len() == channels,
        states.last().pad_remaining == pad - block_pad(pad, required_of(steps)),
        pulled_of(steps).len() <= block_wanted(pad, channels, required_of(steps)),
        states.last().source_drained <==> pulled_of(steps).len() < block_wanted(
            pad,
            channels,
            required_of(steps),
        ),
    decreases steps.len(),
{
    if steps.len() == 0 {
        assert(0 * channels == 0);
        assert(block(pad, channels, 0, Seq::empty())[c as int] =~= Seq::empty());
    } else {
        let earlier: Seq<Use> = steps.drop_last();
        let before: Elastic = states[steps.len() - 1];
        let after: Elastic = states.last();
        lemma_played_before(states, steps, channels);
        lemma_input_run(states.drop_last(), earlier, channels, pad, delay, c);
        match steps.last() {
            Use::Pump(PumpEvent::Pulled(required, pulled), _) => {
                let laid: Seq<Seq<u32>> = block(
                    before.pad_remaining as nat,
                    channels,
                    required as nat,
                    pulled@,
                );
                assert(contents(after.in_buffers@) == laid);
                assert(contents(after.in_buffers@).len() == laid.len());
                law_input_blocks(
                    pad,
                    channels,
                    required_of(earlier),
                    pulled_of(earlier),
                    required as nat,
                    pulled@,
                    c,
                );
            },
            _ => {},
        }
    }
}

} // verus!
