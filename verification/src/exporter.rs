//! Frames of samples on the wire, and the two flushes that move waiting
//! samples out of their channels: into a store in the same process, or into
//! frames for a store elsewhere.
use vstd::prelude::*;

use crate::buf::{MetricBuf, MetricBufReaders, BUF_SIZE};
use crate::codec::{
    be16, decode_key, decode_sample, decode_sample_count, encode_key, encode_sample,
    encode_sample_count, extend_bytes, from_be16, key_decoded, key_encoded, key_fits,
    lemma_be16_round_trip, lemma_key_round_trip, lemma_sample_round_trip, sample_decoded,
    sample_encoded, DecodeError,
};
use crate::consumer::{store_pushed, MetricConsumer, Ring};
use crate::{MetricKey, Sample, SAMPLE_SIZE};

verus! {

/// A run of samples on the wire, one after the other.
pub open spec fn samples_encoded(samples: Seq<Sample>) -> Seq<u8>
    decreases samples.len(),
{
    if samples.len() == 0 {
        Seq::<u8>::empty()
    } else {
        samples_encoded(samples.drop_last()) + sample_encoded(samples.last())
    }
}

/// The `count` samples that the bytes of `b` spell, one after the other.
pub open spec fn samples_decoded(b: Seq<u8>, count: nat) -> Seq<Sample> {
    Seq::new(
        count,
        |i: int| sample_decoded(b.subrange(i * SAMPLE_SIZE as int, (i + 1) * SAMPLE_SIZE as int)),
    )
}

/// A frame: the key, the number of samples, the samples.
pub open spec fn frame_encoded(key: Seq<char>, samples: Seq<Sample>) -> Seq<u8> {
    key_encoded(key) + be16(samples.len() as u16) + samples_encoded(samples)
}

/// What decoding a frame from the start of `b` gives: the key, the samples
/// and the number of bytes that the frame took, or the reason why there is no
/// frame.
pub open spec fn frame_decoded(b: Seq<u8>) -> Result<(Seq<char>, Seq<Sample>, nat), DecodeError> {
    match key_decoded(b) {
        Err(e) => Err(e),
        Ok((key, used)) => {
            if b.len() < used + 2 {
                Err(DecodeError::Truncated)
            } else {
                let count = from_be16(b.subrange(used as int, used as int + 2)) as nat;
                let end = used + 2 + count * SAMPLE_SIZE as nat;
                if b.len() < end {
                    Err(DecodeError::Truncated)
                } else {
                    Ok((key, samples_decoded(b.subrange(used as int + 2, end as int), count), end))
                }
            }
        },
    }
}

/// A run of samples takes sixteen bytes each, and decodes to itself whatever
/// follows it.
pub proof fn lemma_samples_round_trip(samples: Seq<Sample>, rest: Seq<u8>)
    ensures
        samples_encoded(samples).len() == samples.len() * SAMPLE_SIZE as nat,
        samples_decoded(samples_encoded(samples) + rest, samples.len()) == samples,
    decreases samples.len(),
{
    if samples.len() == 0 {
        assert(samples_decoded(samples_encoded(samples) + rest, 0) =~= samples);
    } else {
        let head = samples.drop_last();
        let last = samples.last();
        lemma_sample_round_trip(last);
        lemma_samples_round_trip(head, sample_encoded(last) + rest);
        let b = samples_encoded(samples) + rest;
        assert(b =~= samples_encoded(head) + (sample_encoded(last) + rest));
        let got = samples_decoded(b, samples.len());
        assert forall|i: int| 0 <= i < samples.len() implies got[i] == samples[i] by {
            if i < head.len() {
                assert(samples_decoded(b, head.len())[i] == head[i]);
            } else {
                let from = i * SAMPLE_SIZE as int;
                assert(b.subrange(from, from + SAMPLE_SIZE as int) =~= sample_encoded(last));
            }
        }
        assert(got =~= samples);
    }
}

/// A frame decodes to the key and the samples that it was made of, whatever
/// follows it: float values come back bit for bit.
pub proof fn lemma_frame_round_trip(key: Seq<char>, samples: Seq<Sample>, rest: Seq<u8>)
    requires
        key_fits(key),
        samples.len() <= 0xffff,
    ensures
        frame_decoded(frame_encoded(key, samples) + rest) == Ok::<_, DecodeError>(
            (key, samples, frame_encoded(key, samples).len()),
        ),
{
    let count = samples.len() as u16;
    let tail = be16(count) + samples_encoded(samples) + rest;
    let b = frame_encoded(key, samples) + rest;
    assert(b =~= key_encoded(key) + tail);
    lemma_key_round_trip(key, tail);
    let used = key_encoded(key).len();
    lemma_be16_round_trip(count);
    assert(b.subrange(used as int, used as int + 2) =~= be16(count));
    lemma_samples_round_trip(samples, rest);
    let end = used + 2 + samples.len() * SAMPLE_SIZE as nat;
    assert(b.subrange(used as int + 2, end as int) =~= samples_encoded(samples) + rest.subrange(
        0,
        0,
    ));
    lemma_samples_round_trip(samples, rest.subrange(0, 0));
}

/// Empties a channel into a frame at the end of `wtr` and says whether the
/// frame holds any sample. A frame without samples is written too, and is
/// not meant to be sent.
pub fn encode_frame(key: &MetricKey, metric_buf: &mut MetricBuf, wtr: &mut Vec<u8>) -> (some: bool)
    requires
        key_fits(key@),
        old(metric_buf).wf(),
    ensures
        final(metric_buf).wf(),
        final(metric_buf)@ == Seq::<Sample>::empty(),
        some == (old(metric_buf)@.len() > 0),
        final(wtr)@ == old(wtr)@ + frame_encoded(key@, old(metric_buf)@),
{
    encode_key(wtr, key);
    let sample_count_pos = wtr.len();
    extend_bytes(wtr, encode_sample_count(0).as_slice());
    let ghost head = old(wtr)@ + key_encoded(key@);
    let ghost all = old(metric_buf)@;
    proof {
        metric_buf.lemma_bounded();
        assert(wtr@ =~= head + be16(0) + samples_encoded(all.subrange(0, 0)));
        assert(all.subrange(0, all.len() as int) =~= all);
    }
    let mut sample_count: u16 = 0;
    let mut asked: usize = 0;
    while asked < BUF_SIZE
        invariant
            metric_buf.wf(),
            all.len() <= BUF_SIZE,
            asked <= all.len(),
            sample_count == asked,
            metric_buf@ == all.subrange(asked as int, all.len() as int),
            wtr@ == head + be16(0) + samples_encoded(all.subrange(0, asked as int)),
        ensures
            metric_buf.wf(),
            asked <= all.len(),
            sample_count == asked,
            metric_buf@.len() == 0,
            metric_buf@ == all.subrange(asked as int, all.len() as int),
            wtr@ == head + be16(0) + samples_encoded(all.subrange(0, asked as int)),
        decreases BUF_SIZE - asked,
    {
        match metric_buf.pop() {
            Some(sample) => {
                sample_count = sample_count + 1;
                let bytes = encode_sample(sample);
                extend_bytes(wtr, bytes.as_slice());
                proof {
                    let now = all.subrange(0, asked as int + 1);
                    assert(now.drop_last() =~= all.subrange(0, asked as int));
                    assert(now.last() == sample);
                    assert(wtr@ =~= head + be16(0) + samples_encoded(now));
                    assert(metric_buf@ =~= all.subrange(asked as int + 1, all.len() as int));
                }
            },
            None => {
                break ;
            },
        }
        asked = asked + 1;
    }
    proof {
        assert(asked == all.len());
        assert(all.subrange(0, all.len() as int) =~= all);
        assert(metric_buf@ =~= Seq::<Sample>::empty());
        assert(wtr@.len() >= sample_count_pos + 2);
    }
    if sample_count == 0 {
        proof {
            assert(wtr@ =~= old(wtr)@ + frame_encoded(key@, all));
        }
        return false;
    }
    let count = encode_sample_count(sample_count);
    let written = wtr.len();
    assert(sample_count_pos + 2 <= written);
    wtr.set(sample_count_pos, count[0]);
    wtr.set(sample_count_pos + 1, count[1]);
    proof {
        assert(wtr@ =~= old(wtr)@ + frame_encoded(key@, all));
    }
    true
}

/// Reads one frame from the start of `buf`. Gives the key, the samples in
/// the order of the frame and the number of bytes that the frame took, or
/// says why there is no frame.
pub fn decode_frame(buf: &[u8]) -> (r: Result<(MetricKey, Vec<Sample>, usize), DecodeError>)
    ensures
        r is Ok == frame_decoded(buf@) is Ok,
        r matches Ok((key, samples, used)) ==> frame_decoded(buf@) == Ok::<_, DecodeError>(
            (key@, samples@, used as nat),
        ),
        r matches Err(e) ==> frame_decoded(buf@) == Err::<(Seq<char>, Seq<Sample>, nat), _>(e),
{
    let (key, used) = match decode_key(buf) {
        Ok(found) => found,
        Err(e) => {
            return Err(e);
        },
    };
    if buf.len() - used < 2 {
        return Err(DecodeError::Truncated);
    }
    let sample_count = decode_sample_count([buf[used], buf[used + 1]]);
    proof {
        assert([buf[used as int], buf[used as int + 1]]@ =~= buf@.subrange(
            used as int,
            used as int + 2,
        ));
    }
    let start: usize = used + 2;
    let count: usize = sample_count as usize;
    if (buf.len() - start) / SAMPLE_SIZE < count {
        return Err(DecodeError::Truncated);
    }
    let end: usize = start + count * SAMPLE_SIZE;
    let body = &buf[start..end];
    let mut samples: Vec<Sample> = Vec::with_capacity(count);
    let mut i: usize = 0;
    while i < count
        invariant
            SAMPLE_SIZE == 16,
            count * 16 <= usize::MAX,
            i <= count,
            body@.len() == count * SAMPLE_SIZE,
            samples@ == samples_decoded(body@, i as nat),
        decreases count - i,
    {
        let at: usize = i * SAMPLE_SIZE;
        let sample = decode_sample(
            [
                body[at],
                body[at + 1],
                body[at + 2],
                body[at + 3],
                body[at + 4],
                body[at + 5],
                body[at + 6],
                body[at + 7],
                body[at + 8],
                body[at + 9],
                body[at + 10],
                body[at + 11],
                body[at + 12],
                body[at + 13],
                body[at + 14],
                body[at + 15],
            ],
        );
        proof {
            let block = body@.subrange(i * SAMPLE_SIZE as int, (i + 1) * SAMPLE_SIZE as int);
            assert(sample == sample_decoded(block)) by {
                assert([
                    body[at as int],
                    body[at as int + 1],
                    body[at as int + 2],
                    body[at as int + 3],
                    body[at as int + 4],
                    body[at as int + 5],
                    body[at as int + 6],
                    body[at as int + 7],
                    body[at as int + 8],
                    body[at as int + 9],
                    body[at as int + 10],
                    body[at as int + 11],
                    body[at as int + 12],
                    body[at as int + 13],
                    body[at as int + 14],
                    body[at as int + 15],
                ]@ =~= block);
            }
            assert(samples@.push(sample) =~= samples_decoded(body@, (i + 1) as nat));
        }
        samples.push(sample);
        i = i + 1;
    }
    Ok((key, samples, end))
}

/// Reads one frame from the start of `buf` and appends its samples, in the
/// order of the frame, to the store under the frame's key, as a push of them
/// would. Gives the number of bytes that the frame took. Where there is no
/// whole frame the store stays as it was.
pub fn decode_frame_copy(buf: &[u8], consumer: &mut MetricConsumer) -> (r: Result<
    usize,
    DecodeError,
>)
    requires
        old(consumer).wf(),
    ensures
        final(consumer).wf(),
        final(consumer).queue_size() == old(consumer).queue_size(),
        r is Ok == frame_decoded(buf@) is Ok,
        r matches Err(e) ==> frame_decoded(buf@) == Err::<(Seq<char>, Seq<Sample>, nat), _>(e)
            && *final(consumer) == *old(consumer),
        r matches Ok(used) ==> {
            let (key, samples, end) = frame_decoded(buf@)->Ok_0;
            &&& used == end
            &&& final(consumer).queues().states() == store_pushed(
                old(consumer).queues().states(),
                key,
                samples,
                old(consumer).queue_size(),
            )
            &&& final(consumer).queues().keys() == if old(consumer).queues().has(key) {
                old(consumer).queues().keys()
            } else {
                old(consumer).queues().keys().push(key)
            }
        },
{
    match decode_frame(buf) {
        Ok((key, samples, used)) => {
            consumer.push(&key, samples.as_slice());
            Ok(used)
        },
        Err(e) => Err(e),
    }
}

/// A store, as the ring of each key's queue, after the waiting samples of
/// each channel were pushed under the channel's key, the channels taken in
/// their order.
pub open spec fn flushed(
    store: Map<Seq<char>, Ring>,
    keys: Seq<Seq<char>>,
    pending: Seq<Seq<Sample>>,
    queue_size: nat,
) -> Map<Seq<char>, Ring>
    decreases keys.len(),
{
    if keys.len() == 0 {
        store
    } else {
        store_pushed(
            flushed(store, keys.drop_last(), pending.drop_last(), queue_size),
            keys.last(),
            pending.last(),
            queue_size,
        )
    }
}

/// The keys of a store, in the order in which their queues were made, after
/// each of the keys in `pushed` was pushed under in turn: a key that had no
/// queue yet goes to the end.
pub open spec fn keys_flushed(keys: Seq<Seq<char>>, pushed: Seq<Seq<char>>) -> Seq<Seq<char>>
    decreases pushed.len(),
{
    if pushed.len() == 0 {
        keys
    } else {
        let before = keys_flushed(keys, pushed.drop_last());
        if before.contains(pushed.last()) {
            before
        } else {
            before.push(pushed.last())
        }
    }
}

/// Channels without a waiting sample.
pub open spec fn all_empty(n: nat) -> Seq<Seq<Sample>> {
    Seq::new(n, |i: int| Seq::<Sample>::empty())
}

/// The flush into a store of the same process.
#[derive(Debug)]
pub struct InProcessExporter {
    readers: MetricBufReaders,
    consumer: MetricConsumer,
}

impl InProcessExporter {
    /// The channels and the store are valid.
    pub closed spec fn wf(&self) -> bool {
        self.readers.wf() && self.consumer.wf()
    }

    /// The channels that the flush collects from.
    pub closed spec fn readers(&self) -> MetricBufReaders {
        self.readers
    }

    /// The store that the flush fills.
    pub closed spec fn store(&self) -> MetricConsumer {
        self.consumer
    }

    /// An exporter over the given channels, with an empty store whose queues
    /// will retain `queue_size` samples each.
    pub fn new(readers: MetricBufReaders, queue_size: usize) -> (e: InProcessExporter)
        requires
            readers.wf(),
        ensures
            e.wf(),
            e.readers() == readers,
            e.store().queue_size() == queue_size,
            forall|key: Seq<char>| !e.store().queues().has(key),
            e.store().queues().keys() == Seq::<Seq<char>>::empty(),
    {
        let consumer = MetricConsumer::new(queue_size);
        InProcessExporter { readers, consumer }
    }

    /// The store, to be read.
    pub fn consumer(&self) -> (c: &MetricConsumer)
        requires
            self.wf(),
        ensures
            *c == self.store(),
            c.wf(),
    {
        &self.consumer
    }

    /// Number of channels.
    pub fn channels(&self) -> (n: usize)
        requires
            self.wf(),
        ensures
            n == self.readers().keys().len(),
            n == self.readers().pending().len(),
    {
        self.readers.len()
    }

    /// Puts a sample into a channel, as a producer does; `false` where the
    /// channel is full or missing and the sample is dropped.
    pub fn try_push(&mut self, channel: usize, sample: Sample) -> (taken: bool)
        requires
            old(self).wf(),
        ensures
            final(self).wf(),
            final(self).store() == old(self).store(),
            final(self).readers().keys() == old(self).readers().keys(),
            taken == (channel < old(self).readers().pending().len() && old(
                self,
            ).readers().pending()[channel as int].len() < BUF_SIZE),
            final(self).readers().pending() == if taken {
                old(self).readers().pending().update(
                    channel as int,
                    old(self).readers().pending()[channel as int].push(sample),
                )
            } else {
                old(self).readers().pending()
            },
    {
        self.readers.try_push(channel, sample)
    }

    /// Moves the waiting samples of one channel into the store, in their
    /// order, under the channel's key. The key has a queue afterwards even
    /// where nothing waited.
    pub fn flush_one(&mut self, channel: usize)
        requires
            old(self).wf(),
            channel < old(self).readers().pending().len(),
        ensures
            final(self).wf(),
            final(self).store().queue_size() == old(self).store().queue_size(),
            final(self).readers().keys() == old(self).readers().keys(),
            final(self).readers().pending() == old(self).readers().pending().update(
                channel as int,
                Seq::<Sample>::empty(),
            ),
            final(self).store().queues().states() == store_pushed(
                old(self).store().queues().states(),
                old(self).readers().keys()[channel as int],
                old(self).readers().pending()[channel as int],
                old(self).store().queue_size(),
            ),
            final(self).store().queues().keys() == keys_flushed(
                old(self).store().queues().keys(),
                seq![old(self).readers().keys()[channel as int]],
            ),
    {
        proof {
            self.readers.lemma_shape();
            self.consumer.queues().lemma_keys();
            let key = self.readers.keys()[channel as int];
            let one = seq![key];
            assert(one.drop_last() =~= Seq::<Seq<char>>::empty());
            assert(one.last() == key);
            assert(keys_flushed(self.consumer.queues().keys(), one.drop_last())
                == self.consumer.queues().keys());
        }
        let samples = self.readers.drain(channel);
        let key = self.readers.key_at(channel);
        self.consumer.push(key, samples.as_slice());
    }

    /// Moves every waiting sample into the store: channel by channel, each
    /// channel's samples in their order under its key. Every channel is empty
    /// afterwards.
    pub fn flush(&mut self)
        requires
            old(self).wf(),
        ensures
            final(self).wf(),
            final(self).store().queue_size() == old(self).store().queue_size(),
            final(self).readers().keys() == old(self).readers().keys(),
            final(self).readers().pending() == all_empty(old(self).readers().pending().len()),
            final(self).store().queues().states() == flushed(
                old(self).store().queues().states(),
                old(self).readers().keys(),
                old(self).readers().pending(),
                old(self).store().queue_size(),
            ),
            final(self).store().queues().keys() == keys_flushed(
                old(self).store().queues().keys(),
                old(self).readers().keys(),
            ),
    {
        let n = self.readers.len();
        let ghost keys = self.readers.keys();
        let ghost pending = self.readers.pending();
        let ghost before = self.consumer.queues().states();
        let ghost order = self.consumer.queues().keys();
        let ghost queue_size = self.consumer.queue_size();
        let mut i: usize = 0;
        proof {
            assert(keys.subrange(0, 0) =~= Seq::<Seq<char>>::empty());
        }
        while i < n
            invariant
                self.wf(),
                i <= n,
                n == keys.len(),
                n == pending.len(),
                self.consumer.queue_size() == queue_size,
                self.readers.keys() == keys,
                self.readers.pending().len() == n,
                forall|k: int| 0 <= k < i ==> self.readers.pending()[k] == Seq::<Sample>::empty(),
                forall|k: int| i <= k < n ==> self.readers.pending()[k] == pending[k],
                self.consumer.queues().states() == flushed(
                    before,
                    keys.subrange(0, i as int),
                    pending.subrange(0, i as int),
                    queue_size,
                ),
                self.consumer.queues().keys() == keys_flushed(order, keys.subrange(0, i as int)),
            decreases n - i,
        {
            let ghost so_far = self.consumer.queues().keys();
            self.flush_one(i);
            proof {
                let ks = keys.subrange(0, i as int + 1);
                let ps = pending.subrange(0, i as int + 1);
                assert(ks.drop_last() =~= keys.subrange(0, i as int));
                assert(ps.drop_last() =~= pending.subrange(0, i as int));
                let one = seq![keys[i as int]];
                assert(one.drop_last() =~= Seq::<Seq<char>>::empty());
                assert(keys_flushed(so_far, one.drop_last()) == so_far);
                assert(one.last() == ks.last());
            }
            i = i + 1;
        }
        proof {
            assert(keys.subrange(0, n as int) =~= keys);
            assert(pending.subrange(0, n as int) =~= pending);
            assert(self.readers.pending() =~= all_empty(n as nat));
        }
    }
}

/// The number of the first channel at or after `from` in which a sample
/// waits, or the number of channels where there is none.
pub open spec fn first_waiting(pending: Seq<Seq<Sample>>, from: int) -> int
    decreases pending.len() - from,
{
    if from < 0 || from >= pending.len() {
        pending.len() as int
    } else if pending[from].len() > 0 {
        from
    } else {
        first_waiting(pending, from + 1)
    }
}

/// Whether every key is short enough to be put in a frame.
pub open spec fn keys_fit(keys: Seq<Seq<char>>) -> bool {
    forall|i: int| 0 <= i < keys.len() ==> key_fits(#[trigger] keys[i])
}

/// The flush towards a store elsewhere. It makes the frames of a tick one at
/// a time; whoever drives it sends each frame to `url` before it asks for the
/// next, and abandons the tick where a frame could not be sent.
#[derive(Debug)]
pub struct HttpExporter {
    readers: MetricBufReaders,
    url: String,
    buf: Vec<u8>,
    next: usize,
}

impl HttpExporter {
    /// The channels are valid, and the tick is at one of them or past the
    /// last.
    pub closed spec fn wf(&self) -> bool {
        self.readers.wf() && self.next <= self.readers.keys().len()
    }

    /// The channels that the flush collects from.
    pub closed spec fn readers(&self) -> MetricBufReaders {
        self.readers
    }

    /// Where the frames are to be sent.
    pub closed spec fn target(&self) -> Seq<char> {
        self.url@
    }

    /// The bytes of the frame made last.
    pub closed spec fn frame(&self) -> Seq<u8> {
        self.buf@
    }

    /// The number of the channel that the tick looks at next.
    pub closed spec fn cursor(&self) -> nat {
        self.next as nat
    }

    /// An exporter over the given channels, at the start of a tick.
    pub fn new(readers: MetricBufReaders, url: String) -> (e: HttpExporter)
        requires
            readers.wf(),
        ensures
            e.wf(),
            e.readers() == readers,
            e.target() == url@,
            e.frame() == Seq::<u8>::empty(),
            e.cursor() == 0,
    {
        HttpExporter { readers, url, buf: Vec::new(), next: 0 }
    }

    /// Where the frames are to be sent.
    pub fn url(&self) -> (url: &String)
        ensures
            url@ == self.target(),
    {
        &self.url
    }

    /// The frame made last, to be sent.
    pub fn frame_bytes(&self) -> (bytes: &Vec<u8>)
        ensures
            bytes@ == self.frame(),
    {
        &self.buf
    }

    /// Whether every key is short enough to be put in a frame.
    pub fn keys_fit(&self) -> (ok: bool)
        requires
            self.wf(),
        ensures
            ok == keys_fit(self.readers().keys()),
    {
        let n = self.readers.len();
        let mut i: usize = 0;
        while i < n
            invariant
                self.readers.wf(),
                n == self.readers.keys().len(),
                i <= n,
                forall|k: int| 0 <= k < i ==> key_fits(#[trigger] self.readers.keys()[k]),
            decreases n - i,
        {
            if self.readers.key_at(i).as_str().as_bytes().len() > 0xffff {
                return false;
            }
            i = i + 1;
        }
        true
    }

    /// Puts a sample into a channel, as a producer does; `false` where the
    /// channel is full or missing and the sample is dropped.
    pub fn try_push(&mut self, channel: usize, sample: Sample) -> (taken: bool)
        requires
            old(self).wf(),
        ensures
            final(self).wf(),
            final(self).target() == old(self).target(),
            final(self).frame() == old(self).frame(),
            final(self).cursor() == old(self).cursor(),
            final(self).readers().keys() == old(self).readers().keys(),
            taken == (channel < old(self).readers().pending().len() && old(
                self,
            ).readers().pending()[channel as int].len() < BUF_SIZE),
            final(self).readers().pending() == if taken {
                old(self).readers().pending().update(
                    channel as int,
                    old(self).readers().pending()[channel as int].push(sample),
                )
            } else {
                old(self).readers().pending()
            },
    {
        self.readers.try_push(channel, sample)
    }

    /// Abandons what is left of the tick, as after a frame that could not be
    /// sent: the next frame asked for is the first of a new tick. Samples
    /// already put in a frame stay taken.
    pub fn restart(&mut self)
        requires
            old(self).wf(),
        ensures
            final(self).wf(),
            final(self).readers() == old(self).readers(),
            final(self).target() == old(self).target(),
            final(self).frame() == old(self).frame(),
            final(self).cursor() == 0,
    {
        self.next = 0;
    }

    /// Makes the next frame of the tick: that of the first channel, from the
    /// one the tick has come to, in which a sample waits. That channel is
    /// emptied into the frame and the tick moves past it. Channels in which
    /// nothing waits give no frame. Where no channel is left the answer is
    /// `false`, the tick is over and the next call starts a new one.
    pub fn next_frame(&mut self) -> (some: bool)
        requires
            old(self).wf(),
            keys_fit(old(self).readers().keys()),
        ensures
            final(self).wf(),
            final(self).target() == old(self).target(),
            final(self).readers().keys() == old(self).readers().keys(),
            ({
                let pending = old(self).readers().pending();
                let at = first_waiting(pending, old(self).cursor() as int);
                &&& some == (at < pending.len())
                &&& some ==> {
                    &&& final(self).frame() == frame_encoded(
                        old(self).readers().keys()[at],
                        pending[at],
                    )
                    &&& final(self).readers().pending() == pending.update(
                        at,
                        Seq::<Sample>::empty(),
                    )
                    &&& final(self).cursor() == at + 1
                }
                &&& !some ==> {
                    &&& final(self).readers().pending() == pending
                    &&& final(self).cursor() == 0
                }
            }),
    {
        let n = self.readers.len();
        let ghost pending = self.readers.pending();
        let ghost from = self.next as int;
        proof {
            self.readers.lemma_shape();
        }
        while self.next < n
            invariant
                self.readers.wf(),
                n == self.readers.keys().len(),
                n == pending.len(),
                self.next <= n,
                pending == old(self).readers.pending(),
                from == old(self).next,
                self.url == old(self).url,
                self.readers.keys() == old(self).readers.keys(),
                keys_fit(self.readers.keys()),
                self.readers.pending() == pending,
                first_waiting(pending, self.next as int) == first_waiting(pending, from),
            decreases n - self.next,
        {
            let channel = self.next;
            self.next = channel + 1;
            self.buf.clear();
            proof {
                assert(pending[channel as int].len() == 0 ==> first_waiting(pending, channel as int)
                    == first_waiting(pending, channel as int + 1));
                assert(pending[channel as int].len() > 0 ==> first_waiting(pending, channel as int)
                    == channel);
            }
            if self.readers.encode_frame_at(channel, &mut self.buf) {
                proof {
                    assert(self.buf@ =~= frame_encoded(
                        old(self).readers.keys()[channel as int],
                        pending[channel as int],
                    ));
                }
                return true;
            }
            proof {
                assert(pending[channel as int] =~= Seq::<Sample>::empty());
                assert(self.readers.pending() =~= pending);
            }
        }
        self.next = 0;
        false
    }
}

} // verus!
