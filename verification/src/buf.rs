//! The buffers between the producers of samples and the flush that collects
//! them: one bounded first-in-first-out channel per registered key.
use std::collections::VecDeque;
use vstd::prelude::*;

use crate::codec::key_fits;
use crate::exporter::{encode_frame, frame_encoded};
use crate::{MetricKey, Sample};

verus! {

/// Number of samples that a channel holds before it turns new ones away.
pub const BUF_SIZE: usize = 1024;

/// One channel: samples wait in it, in the order in which they were pushed,
/// until they are popped.
#[derive(Debug, Clone)]
pub struct MetricBuf {
    pending: VecDeque<Sample>,
}

impl View for MetricBuf {
    type V = Seq<Sample>;

    /// The waiting samples, the one pushed first standing first.
    closed spec fn view(&self) -> Seq<Sample> {
        self.pending@
    }
}

impl MetricBuf {
    /// A channel never holds more than `BUF_SIZE` samples.
    pub closed spec fn wf(&self) -> bool {
        self.pending@.len() <= BUF_SIZE
    }

    /// A valid channel holds at most `BUF_SIZE` samples.
    pub proof fn lemma_bounded(&self)
        requires
            self.wf(),
        ensures
            self@.len() <= BUF_SIZE,
    {
    }

    /// An empty channel.
    pub fn new() -> (buf: MetricBuf)
        ensures
            buf.wf(),
            buf@ == Seq::<Sample>::empty(),
    {
        MetricBuf { pending: VecDeque::new() }
    }

    /// Number of samples waiting.
    pub fn len(&self) -> (n: usize)
        requires
            self.wf(),
        ensures
            n == self@.len(),
    {
        self.pending.len()
    }

    /// Puts a sample at the end of the channel, unless the channel is full:
    /// then the sample is dropped and the answer is `false`.
    pub fn try_push(&mut self, sample: Sample) -> (taken: bool)
        requires
            old(self).wf(),
        ensures
            final(self).wf(),
            taken == (old(self)@.len() < BUF_SIZE),
            final(self)@ == if taken {
                old(self)@.push(sample)
            } else {
                old(self)@
            },
    {
        if self.pending.len() >= BUF_SIZE {
            return false;
        }
        self.pending.push_back(sample);
        true
    }

    /// Takes the sample that has waited longest, if any waits.
    pub fn pop(&mut self) -> (sample: Option<Sample>)
        requires
            old(self).wf(),
        ensures
            final(self).wf(),
            sample is Some == (old(self)@.len() > 0),
            sample matches Some(s) ==> s == old(self)@[0] && final(self)@ == old(self)@.drop_first(),
            sample is None ==> final(self)@ == old(self)@,
    {
        let sample = self.pending.pop_front();
        proof {
            if sample is Some {
                assert(self.pending@ =~= old(self).pending@.drop_first());
            }
        }
        sample
    }

    /// Takes every waiting sample, the one that waited longest first. It asks
    /// the channel at most `BUF_SIZE` times, which empties it.
    pub fn drain(&mut self) -> (taken: Vec<Sample>)
        requires
            old(self).wf(),
        ensures
            final(self).wf(),
            taken@ == old(self)@,
            final(self)@ == Seq::<Sample>::empty(),
    {
        let mut taken: Vec<Sample> = Vec::new();
        let mut asked: usize = 0;
        while asked < BUF_SIZE
            invariant
                self.wf(),
                asked <= BUF_SIZE,
                taken@.len() == asked,
                taken@ + self@ == old(self)@,
                old(self)@.len() <= BUF_SIZE,
            ensures
                self.wf(),
                taken@ == old(self)@,
                self@ == Seq::<Sample>::empty(),
            decreases BUF_SIZE - asked,
        {
            let ghost before = self@;
            match self.pop() {
                Some(sample) => {
                    taken.push(sample);
                    proof {
                        assert(taken@ + self@ =~= (taken@.drop_last() + before));
                    }
                },
                None => {
                    proof {
                        assert(self@ =~= Seq::<Sample>::empty());
                        assert(taken@ + self@ =~= taken@);
                    }
                    break ;
                },
            }
            asked = asked + 1;
        }
        proof {
            assert(self@ =~= Seq::<Sample>::empty());
            assert(taken@ + self@ =~= taken@);
        }
        taken
    }
}

/// The channels that a flush collects from, each under the key that its
/// samples will be stored under. Channels are numbered in the order in which
/// they were registered.
#[derive(Debug, Clone)]
pub struct MetricBufReaders {
    keys: Vec<MetricKey>,
    bufs: Vec<MetricBuf>,
}

impl MetricBufReaders {
    /// Every channel has its key and is within its bound.
    pub closed spec fn wf(&self) -> bool {
        &&& self.keys@.len() == self.bufs@.len()
        &&& forall|i: int| 0 <= i < self.bufs@.len() ==> (#[trigger] self.bufs@[i]).wf()
    }

    /// The keys of the channels, by channel number.
    pub closed spec fn keys(&self) -> Seq<Seq<char>> {
        Seq::new(self.keys@.len(), |i: int| self.keys@[i]@)
    }

    /// The waiting samples of the channels, by channel number.
    pub closed spec fn pending(&self) -> Seq<Seq<Sample>> {
        Seq::new(self.bufs@.len(), |i: int| self.bufs@[i]@)
    }

    /// There is one run of waiting samples for each key, and none is longer
    /// than `BUF_SIZE`.
    pub proof fn lemma_shape(&self)
        requires
            self.wf(),
        ensures
            self.keys().len() == self.pending().len(),
            forall|i: int| 0 <= i < self.pending().len() ==> self.pending()[i].len() <= BUF_SIZE,
    {
    }

    /// No channels.
    pub fn new() -> (readers: MetricBufReaders)
        ensures
            readers.wf(),
            readers.keys() == Seq::<Seq<char>>::empty(),
            readers.pending() == Seq::<Seq<Sample>>::empty(),
    {
        let readers = MetricBufReaders { keys: Vec::new(), bufs: Vec::new() };
        proof {
            assert(readers.keys() =~= Seq::<Seq<char>>::empty());
            assert(readers.pending() =~= Seq::<Seq<Sample>>::empty());
        }
        readers
    }

    /// Registers an empty channel under `key` and gives its number.
    pub fn new_metrics(&mut self, key: MetricKey) -> (channel: usize)
        requires
            old(self).wf(),
        ensures
            final(self).wf(),
            channel == old(self).keys().len(),
            final(self).keys() == old(self).keys().push(key@),
            final(self).pending() == old(self).pending().push(Seq::<Sample>::empty()),
    {
        let channel = self.keys.len();
        self.keys.push(key);
        self.bufs.push(MetricBuf::new());
        proof {
            assert(self.keys() =~= old(self).keys().push(key@));
            assert(self.pending() =~= old(self).pending().push(Seq::<Sample>::empty()));
        }
        channel
    }

    /// Number of channels.
    pub fn len(&self) -> (n: usize)
        requires
            self.wf(),
        ensures
            n == self.keys().len(),
            n == self.pending().len(),
    {
        self.keys.len()
    }

    /// The key of a channel.
    pub fn key_at(&self, channel: usize) -> (key: &MetricKey)
        requires
            self.wf(),
            channel < self.keys().len(),
        ensures
            key@ == self.keys()[channel as int],
    {
        &self.keys[channel]
    }

    /// Puts a sample into a channel, unless the channel is full or there is
    /// no channel of that number: then the sample is dropped and the answer
    /// is `false`.
    pub fn try_push(&mut self, channel: usize, sample: Sample) -> (taken: bool)
        requires
            old(self).wf(),
        ensures
            final(self).wf(),
            final(self).keys() == old(self).keys(),
            taken == (channel < old(self).pending().len() && old(self).pending()[channel as int].len()
                < BUF_SIZE),
            final(self).pending() == if taken {
                old(self).pending().update(
                    channel as int,
                    old(self).pending()[channel as int].push(sample),
                )
            } else {
                old(self).pending()
            },
    {
        if channel >= self.bufs.len() {
            return false;
        }
        let taken = self.bufs[channel].try_push(sample);
        proof {
            assert(self.keys() =~= old(self).keys());
            if taken {
                assert(self.pending() =~= old(self).pending().update(
                    channel as int,
                    old(self).pending()[channel as int].push(sample),
                ));
            } else {
                assert(self.pending() =~= old(self).pending());
            }
        }
        taken
    }

    /// Takes every waiting sample of a channel, the one that waited longest
    /// first.
    pub fn drain(&mut self, channel: usize) -> (taken: Vec<Sample>)
        requires
            old(self).wf(),
            channel < old(self).pending().len(),
        ensures
            final(self).wf(),
            final(self).keys() == old(self).keys(),
            taken@ == old(self).pending()[channel as int],
            taken@.len() <= BUF_SIZE,
            final(self).pending() == old(self).pending().update(
                channel as int,
                Seq::<Sample>::empty(),
            ),
    {
        let taken = self.bufs[channel].drain();
        proof {
            assert(old(self).bufs@[channel as int].wf());
            assert(self.keys() =~= old(self).keys());
            assert(self.pending() =~= old(self).pending().update(
                channel as int,
                Seq::<Sample>::empty(),
            ));
        }
        taken
    }
}

impl Default for MetricBufReaders {
    fn default() -> (readers: MetricBufReaders)
        ensures
            readers.wf(),
            readers.keys() == Seq::<Seq<char>>::empty(),
            readers.pending() == Seq::<Seq<Sample>>::empty(),
    {
        MetricBufReaders::new()
    }
}

impl MetricBufReaders {
    /// Empties a channel into a frame at the end of `wtr`, under the
    /// channel's key, and says whether the frame holds any sample.
    pub fn encode_frame_at(&mut self, channel: usize, wtr: &mut Vec<u8>) -> (some: bool)
        requires
            old(self).wf(),
            channel < old(self).pending().len(),
            key_fits(old(self).keys()[channel as int]),
        ensures
            final(self).wf(),
            final(self).keys() == old(self).keys(),
            final(self).pending() == old(self).pending().update(
                channel as int,
                Seq::<Sample>::empty(),
            ),
            some == (old(self).pending()[channel as int].len() > 0),
            final(wtr)@ == old(wtr)@ + frame_encoded(
                old(self).keys()[channel as int],
                old(self).pending()[channel as int],
            ),
    {
        proof {
            assert(old(self).bufs@[channel as int].wf());
        }
        let some = encode_frame(&self.keys[channel], &mut self.bufs[channel], wtr);
        proof {
            assert(self.keys() =~= old(self).keys());
            assert(self.pending() =~= old(self).pending().update(
                channel as int,
                Seq::<Sample>::empty(),
            ));
        }
        some
    }
}

} // verus!
