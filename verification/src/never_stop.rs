//! A source that goes on in silence after its track has ended, so that the sink never drops it.

use crate::elastic::SILENCE;
use crate::time::Duration;
use vstd::prelude::*;

verus! {

/// Whether the track has ended.
#[derive(Clone, Copy, PartialEq, Eq, Structural, Debug)]
pub struct NeverStop {
    pub ended: bool,
}

/// A sample to play, and whether the end of the track is to be announced.
#[derive(Clone, Copy, PartialEq, Eq, Structural, Debug)]
pub struct Played {
    pub sample: u32,
    pub announce: bool,
}

/// The position nearest to `pos` within a track of length `total`.
pub open spec fn within(pos: Duration, total: Option<Duration>) -> Duration {
    match total {
        Some(d) => if d.total() < pos.total() {
            d
        } else {
            pos
        },
        None => pos,
    }
}

/// Whether `pos` is at the end of a track of length `total`, or past it.
pub open spec fn at_end(pos: Duration, total: Option<Duration>) -> bool {
    total is Some && pos.total() >= total->0.total()
}

impl NeverStop {
    /// The state after a sample, given what the track has answered if it was asked.
    pub open spec fn after(self, pulled: Option<u32>) -> NeverStop {
        NeverStop { ended: self.ended || pulled is None }
    }

    /// What is played, given what the track has answered if it was asked: that answer, or silence
    /// from its end on, which is announced when it comes.
    pub open spec fn plays(self, pulled: Option<u32>) -> Played {
        Played {
            sample: if self.after(pulled).ended {
                SILENCE
            } else {
                pulled->0
            },
            announce: self.after(pulled).ended && !self.ended,
        }
    }

    /// The state after the answers `pulled` of the track.
    pub open spec fn after_all(self, pulled: Seq<Option<u32>>) -> NeverStop
        decreases pulled.len(),
    {
        if pulled.len() == 0 {
            self
        } else {
            self.after_all(pulled.drop_last()).after(pulled.last())
        }
    }

    /// What is played over the answers `pulled` of the track.
    pub open spec fn plays_all(self, pulled: Seq<Option<u32>>) -> Seq<Played>
        decreases pulled.len(),
    {
        if pulled.len() == 0 {
            Seq::empty()
        } else {
            self.plays_all(pulled.drop_last()).push(
                self.after_all(pulled.drop_last()).plays(pulled.last()),
            )
        }
    }

    /// A source whose track has not ended.
    pub fn new() -> (s: NeverStop)
        ensures
            !s.ended,
    {
        NeverStop { ended: false }
    }

    /// Whether the next sample is to be asked of the track.
    pub fn needs_source(&self) -> (r: bool)
        ensures
            r == !self.ended,
    {
        !self.ended
    }

    /// The next sample, given what the track has answered if it was asked: that answer, or
    /// silence from its end on, which is announced when it comes.
    pub fn next(&mut self, pulled: Option<u32>) -> (played: Played)
        ensures
            *final(self) == old(self).after(pulled),
            played == old(self).plays(pulled),
    {
        if self.ended {
            return Played { sample: SILENCE, announce: false };
        }
        match pulled {
            Some(sample) => Played { sample, announce: false },
            None => {
                self.ended = true;
                Played { sample: SILENCE, announce: true }
            },
        }
    }

    /// How many samples follow before channel count or sample rate may change, given what the
    /// track says of it.
    pub fn current_span_len(&self, source: Option<usize>) -> (n: Option<usize>)
        ensures
            n == (if self.ended {
                None
            } else {
                source
            }),
    {
        if self.ended {
            None
        } else {
            source
        }
    }

    /// It holds instead of ending.
    pub fn is_exhausted(&self) -> (r: bool)
        ensures
            !r,
    {
        false
    }

    /// Where to seek in the track for a position that may be past its end.
    pub fn seek_target(&self, pos: Duration, total: Option<Duration>) -> (d: Duration)
        requires
            pos.wf(),
            total is Some ==> total->0.wf(),
        ensures
            d == within(pos, total),
            d.wf(),
    {
        match total {
            Some(d) => pos.min(d),
            None => pos,
        }
    }

    /// Takes note of whether the track could be sought, and tells whether its end is to be
    /// announced. A track that refused to seek leaves everything as it is.
    pub fn finish_seek(
        &mut self,
        sought: bool,
        pos: Duration,
        total: Option<Duration>,
    ) -> (announce: bool)
        requires
            pos.wf(),
            total is Some ==> total->0.wf(),
        ensures
            final(self).ended == (if sought {
                at_end(pos, total)
            } else {
                old(self).ended
            }),
            announce == (sought && at_end(pos, total)),
    {
        if !sought {
            return false;
        }
        self.ended = match total {
            Some(d) => pos.at_least(d),
            None => false,
        };
        self.ended
    }
}

/// A track plays until its first answer that is none, and in silence from then on. Its end is
/// announced there and nowhere else, so once between two seeks if it comes, and not at all if it
/// does not.
pub proof fn law_end_is_announced_once(source: NeverStop, pulled: Seq<Option<u32>>)
    requires
        !source.ended,
    ensures
        source.plays_all(pulled).len() == pulled.len(),
        source.after_all(pulled).ended <==> exists|j: int|
            0 <= j < pulled.len() && #[trigger] pulled[j] is None,
        forall|i: int|
            0 <= i < pulled.len() ==> (#[trigger] source.plays_all(pulled)[i]).announce == (
            pulled[i] is None && !source.after_all(pulled.take(i)).ended),
        forall|i: int|
            0 <= i < pulled.len() ==> (#[trigger] source.plays_all(pulled)[i]).sample == (
            if source.after_all(pulled.take(i + 1)).ended {
                SILENCE
            } else {
                pulled[i]->0
            }),
        forall|i: int, j: int|
            0 <= i < j < pulled.len() && (#[trigger] source.plays_all(pulled)[i]).announce ==> !(
            #[trigger] source.plays_all(pulled)[j]).announce,
        source.after_all(pulled).ended <==> exists|i: int|
            0 <= i < pulled.len() && (#[trigger] source.plays_all(pulled)[i]).announce,
    decreases pulled.len(),
{
    if pulled.len() > 0 {
        let prefix: Seq<Option<u32>> = pulled.drop_last();
        let last: int = pulled.len() - 1;
        law_end_is_announced_once(source, prefix);
        let before: Seq<Played> = source.plays_all(prefix);
        let all: Seq<Played> = source.plays_all(pulled);
        assert(pulled.take(last) =~= prefix);
        assert(pulled.take(last + 1) =~= pulled);
        assert forall|i: int| 0 <= i < last implies #[trigger] all[i] == before[i] && pulled[i]
            == prefix[i] && pulled.take(i) == prefix.take(i) && pulled.take(i + 1) == prefix.take(
            i + 1,
        ) by {
            assert(pulled.take(i) =~= prefix.take(i));
            assert(pulled.take(i + 1) =~= prefix.take(i + 1));
        }
        if source.after_all(prefix).ended {
            let j: int = choose|j: int| 0 <= j < prefix.len() && #[trigger] prefix[j] is None;
            assert(pulled[j] is None);
            let i: int = choose|i: int| 0 <= i < prefix.len() && (#[trigger] before[i]).announce;
            assert(all[i].announce);
        } else {
            assert forall|i: int| 0 <= i < last implies !(#[trigger] all[i]).announce && pulled[i]
                is Some by {
                assert(!before[i].announce);
                assert(prefix[i] is Some);
            }
            assert(all[last].announce == (pulled[last] is None));
        }
    }
}

} // verus!
