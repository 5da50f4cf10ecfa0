//! The store of retained samples: one bounded queue per metric key.
use vstd::prelude::*;

use crate::keys::{distinct, lemma_slot, listed, position, slot};
use crate::range::{TimeBound, TimeRange};
use crate::{MetricKey, Sample};

verus! {

/// What is left of `s` once every sample before the first one that the start
/// bound admits is cut off. Nothing is left where it admits none.
pub open spec fn trim_front(s: Seq<Sample>, start: TimeBound) -> Seq<Sample>
    decreases s.len(),
{
    if s.len() == 0 || start.admits_from(s[0].time) {
        s
    } else {
        trim_front(s.drop_first(), start)
    }
}

/// What is left of `s` once every sample after the last one that the end
/// bound admits is cut off. Nothing is left where it admits none.
pub open spec fn trim_back(s: Seq<Sample>, end: TimeBound) -> Seq<Sample>
    decreases s.len(),
{
    if s.len() == 0 || end.admits_until(s.last().time) {
        s
    } else {
        trim_back(s.drop_last(), end)
    }
}

/// One contiguous run of samples cut down to a time range: first from the
/// front by the start bound, then from the back by the end bound.
pub open spec fn trim(s: Seq<Sample>, range: TimeRange) -> Seq<Sample> {
    trim_back(trim_front(s, range.start), range.end)
}

/// Whether the timestamps of `s` never go down.
pub open spec fn time_ordered(s: Seq<Sample>) -> bool {
    forall|i: int, j: int| 0 <= i <= j < s.len() ==> s[i].time <= s[j].time
}

/// The test that a sample's time lies in `range`.
pub open spec fn in_range(range: TimeRange) -> spec_fn(Sample) -> bool {
    |x: Sample| range.contains(x.time)
}

/// The samples of `s` whose time lies in `range`, in the order of `s`.
pub open spec fn within(s: Seq<Sample>, range: TimeRange) -> Seq<Sample> {
    s.filter(in_range(range))
}

/// The newest `limit` samples of `s`, or all of them where there are fewer.
pub open spec fn newest(s: Seq<Sample>, limit: nat) -> Seq<Sample> {
    if s.len() <= limit {
        s
    } else {
        s.subrange(s.len() - limit, s.len() as int)
    }
}

/// Where the cut at the front falls: what is cut off holds no sample that
/// the start bound admits, and what is left begins with one that it admits.
pub proof fn lemma_trim_front_cut(s: Seq<Sample>, start: TimeBound) -> (k: int)
    ensures
        0 <= k <= s.len(),
        trim_front(s, start) == s.subrange(k, s.len() as int),
        forall|i: int| 0 <= i < k ==> !start.admits_from(#[trigger] s[i].time),
        k < s.len() ==> start.admits_from(s[k].time),
    decreases s.len(),
{
    if s.len() == 0 || start.admits_from(s[0].time) {
        assert(s.subrange(0, s.len() as int) =~= s);
        0
    } else {
        let rest = s.drop_first();
        let k = lemma_trim_front_cut(rest, start);
        assert(rest.subrange(k, rest.len() as int) =~= s.subrange(k + 1, s.len() as int));
        assert forall|i: int| 0 <= i < k + 1 implies !start.admits_from(#[trigger] s[i].time) by {
            if i > 0 {
                assert(s[i] == rest[i - 1]);
            }
        }
        k + 1
    }
}

/// Where the cut at the back falls: what is cut off holds no sample that the
/// end bound admits, and what is left ends with one that it admits.
pub proof fn lemma_trim_back_cut(s: Seq<Sample>, end: TimeBound) -> (j: int)
    ensures
        0 <= j <= s.len(),
        trim_back(s, end) == s.subrange(0, j),
        forall|i: int| j <= i < s.len() ==> !end.admits_until(#[trigger] s[i].time),
        j > 0 ==> end.admits_until(s[j - 1].time),
    decreases s.len(),
{
    if s.len() == 0 || end.admits_until(s.last().time) {
        assert(s.subrange(0, s.len() as int) =~= s);
        s.len() as int
    } else {
        let rest = s.drop_last();
        let j = lemma_trim_back_cut(rest, end);
        assert(rest.subrange(0, j) =~= s.subrange(0, j));
        assert forall|i: int| j <= i < s.len() implies !end.admits_until(#[trigger] s[i].time) by {
            if i < rest.len() {
                assert(s[i] == rest[i]);
            }
        }
        j
    }
}

proof fn lemma_filter_step(s: Seq<Sample>, pred: spec_fn(Sample) -> bool)
    ensures
        s.len() == 0 ==> s.filter(pred) == s,
        s.len() > 0 && pred(s.last()) ==> s.filter(pred) == s.drop_last().filter(pred).push(
            s.last(),
        ),
        s.len() > 0 && !pred(s.last()) ==> s.filter(pred) == s.drop_last().filter(pred),
{
    reveal(Seq::filter);
}

proof fn lemma_filter_segment(s: Seq<Sample>, pred: spec_fn(Sample) -> bool, lo: int, hi: int)
    requires
        0 <= lo <= hi <= s.len(),
        forall|i: int| 0 <= i < lo ==> !pred(#[trigger] s[i]),
        forall|i: int| lo <= i < hi ==> pred(#[trigger] s[i]),
        forall|i: int| hi <= i < s.len() ==> !pred(#[trigger] s[i]),
    ensures
        s.filter(pred) == s.subrange(lo, hi),
    decreases s.len(),
{
    lemma_filter_step(s, pred);
    let n = s.len() as int;
    if n == 0 {
        assert(s.subrange(lo, hi) =~= s);
    } else {
        let rest = s.drop_last();
        assert forall|i: int| 0 <= i < rest.len() implies rest[i] == s[i] by {}
        if hi < n {
            lemma_filter_segment(rest, pred, lo, hi);
            assert(!pred(s[n - 1]));
            assert(rest.subrange(lo, hi) =~= s.subrange(lo, hi));
        } else if lo < hi {
            lemma_filter_segment(rest, pred, lo, hi - 1);
            assert(pred(s[n - 1]));
            assert(rest.subrange(lo, hi - 1).push(s[n - 1]) =~= s.subrange(lo, hi));
        } else {
            lemma_filter_segment(rest, pred, lo - 1, hi - 1);
            assert(!pred(s[n - 1]));
            assert(rest.subrange(lo - 1, hi - 1) =~= s.subrange(lo, hi));
        }
    }
}

/// One run whose timestamps never go down, cut down to a range, holds
/// exactly its samples inside the range.
pub proof fn lemma_trim_ordered(s: Seq<Sample>, range: TimeRange)
    requires
        time_ordered(s),
    ensures
        trim(s, range) == within(s, range),
{
    let n = s.len() as int;
    let k = lemma_trim_front_cut(s, range.start);
    let tail = s.subrange(k, n);
    let j = lemma_trim_back_cut(tail, range.end);
    let pred = in_range(range);
    assert(tail.subrange(0, j) =~= s.subrange(k, k + j));
    assert forall|i: int| 0 <= i < k implies !pred(#[trigger] s[i]) by {
        assert(!range.start.admits_from(s[i].time));
    }
    assert forall|i: int| k <= i < k + j implies pred(#[trigger] s[i]) by {
        assert(s[k].time <= s[i].time);
        assert(tail[j - 1] == s[k + j - 1]);
        assert(s[i].time <= s[k + j - 1].time);
        assert(range.start.admits_from(s[k].time));
        assert(range.end.admits_until(s[k + j - 1].time));
    }
    assert forall|i: int| k + j <= i < n implies !pred(#[trigger] s[i]) by {
        assert(tail[i - k] == s[i]);
        assert(!range.end.admits_until(tail[i - k].time));
    }
    lemma_filter_segment(s, pred, k, k + j);
}

/// Cuts a slice down to a time range without copying: a forward scan finds
/// the start, a backward scan over what is left finds the end.
pub fn trim_slice<'a>(slice: &'a [Sample], range: &TimeRange) -> (r: &'a [Sample])
    ensures
        r@ == trim(slice@, *range),
{
    let n = slice.len();
    let mut i: usize = 0;
    proof {
        assert(slice@.subrange(0, n as int) =~= slice@);
    }
    while i < n && !range.start.starts_by(slice[i].time)
        invariant
            n == slice@.len(),
            i <= n,
            trim_front(slice@, range.start) == trim_front(
                slice@.subrange(i as int, n as int),
                range.start,
            ),
        decreases n - i,
    {
        proof {
            let cur = slice@.subrange(i as int, n as int);
            assert(cur.drop_first() =~= slice@.subrange(i as int + 1, n as int));
        }
        i = i + 1;
    }
    let mut j: usize = n;
    while j > i && !range.end.ends_after(slice[j - 1].time)
        invariant
            n == slice@.len(),
            i <= j <= n,
            trim(slice@, *range) == trim_back(slice@.subrange(i as int, j as int), range.end),
        decreases j - i,
    {
        proof {
            let cur = slice@.subrange(i as int, j as int);
            assert(cur.drop_last() =~= slice@.subrange(i as int, j as int - 1));
        }
        j = j - 1;
    }
    &slice[i..j]
}

/// The contents of a queue after one more sample arrives: at the limit the
/// oldest sample makes room, below it the queue grows.
pub open spec fn pushed(s: Seq<Sample>, limit: nat, sample: Sample) -> Seq<Sample> {
    if s.len() >= limit && s.len() > 0 {
        s.drop_first().push(sample)
    } else {
        s.push(sample)
    }
}

/// The limit of a queue after a push that asks for room for `queue_size`
/// samples: a limit only ever grows, and a queue always has room for the
/// newest sample.
pub open spec fn grown(limit: nat, queue_size: nat) -> nat {
    if queue_size > limit && queue_size >= 1 {
        queue_size
    } else if limit >= 1 {
        limit
    } else {
        1
    }
}

/// A ring as it lies in memory: the run of older samples, the run of newer
/// ones behind which the next sample goes, and the most samples that the two
/// hold together.
pub struct Ring {
    pub front: Seq<Sample>,
    pub back: Seq<Sample>,
    pub limit: nat,
}

impl Ring {
    /// The samples of the ring, oldest first.
    pub open spec fn samples(self) -> Seq<Sample> {
        self.front + self.back
    }

    /// The ring is within its limit, and has a newer run only when it is
    /// full.
    pub open spec fn wf(self) -> bool {
        &&& self.front.len() + self.back.len() <= self.limit
        &&& self.back.len() > 0 ==> self.front.len() > 0 && self.front.len() + self.back.len()
            == self.limit
    }

    /// A ring without samples and without room.
    pub open spec fn empty() -> Ring {
        Ring { front: Seq::empty(), back: Seq::empty(), limit: 0 }
    }

    /// The ring after one more sample arrived while room for `queue_size`
    /// samples was asked for. A limit that rises lays the samples out as one
    /// run. In a full ring the sample takes the place of the oldest one, at
    /// the end of the newer run; once the older run is used up, the newer
    /// run becomes the older one. A ring that is not full grows at its end.
    pub open spec fn pushed(self, queue_size: nat, sample: Sample) -> Ring {
        let limit = grown(self.limit, queue_size);
        let front = if limit > self.limit {
            self.front + self.back
        } else {
            self.front
        };
        let back = if limit > self.limit {
            Seq::empty()
        } else {
            self.back
        };
        if front.len() + back.len() >= limit && front.len() > 0 {
            if front.len() == 1 {
                Ring { front: back.push(sample), back: Seq::empty(), limit }
            } else {
                Ring { front: front.drop_first(), back: back.push(sample), limit }
            }
        } else {
            Ring { front: front.push(sample), back, limit }
        }
    }

    /// The ring after a batch of samples arrived one by one. An empty batch
    /// leaves it as it is, limit included.
    pub open spec fn pushed_all(self, queue_size: nat, batch: Seq<Sample>) -> Ring
        decreases batch.len(),
    {
        if batch.len() == 0 {
            self
        } else {
            self.pushed(queue_size, batch[0]).pushed_all(queue_size, batch.drop_first())
        }
    }
}

/// The recent history of one metric: a ring of samples in arrival order.
///
/// The ring is a vector that is overwritten in place once it is full, so the
/// samples lie in at most two contiguous runs: `front()`, the older ones, and
/// `back()`, the newer ones.
#[derive(Debug, Clone)]
pub struct MetricQueue {
    buf: Vec<Sample>,
    head: usize,
    limit: usize,
}

impl View for MetricQueue {
    type V = Seq<Sample>;

    /// The retained samples, oldest first.
    closed spec fn view(&self) -> Seq<Sample> {
        self.front() + self.back()
    }
}

impl MetricQueue {
    /// The invariant of the ring.
    pub closed spec fn wf(&self) -> bool {
        &&& self.buf@.len() <= self.limit
        &&& self.head < self.buf@.len() || self.head == 0
        &&& self.head > 0 ==> self.buf@.len() == self.limit
    }

    /// The most samples the queue holds before it evicts.
    pub closed spec fn limit(&self) -> nat {
        self.limit as nat
    }

    /// The older of the two contiguous runs.
    pub closed spec fn front(&self) -> Seq<Sample> {
        self.buf@.subrange(self.head as int, self.buf@.len() as int)
    }

    /// The newer of the two contiguous runs.
    pub closed spec fn back(&self) -> Seq<Sample> {
        self.buf@.subrange(0, self.head as int)
    }

    /// The queue as it lies in memory.
    pub open spec fn ring(&self) -> Ring {
        Ring { front: self.front(), back: self.back(), limit: self.limit() }
    }

    /// A valid queue lies in memory as a valid ring.
    pub proof fn lemma_ring(&self)
        requires
            self.wf(),
        ensures
            self.ring().wf(),
            self.ring().samples() == self@,
    {
    }

    /// The two runs, one after the other, are the queue's contents.
    pub proof fn lemma_runs(&self)
        ensures
            self@ == self.front() + self.back(),
    {
    }

    /// A valid queue never holds more than its limit.
    pub proof fn lemma_bounded(&self)
        requires
            self.wf(),
        ensures
            self@.len() <= self.limit(),
    {
    }

    /// An empty queue with no room yet.
    pub fn new() -> (q: MetricQueue)
        ensures
            q.wf(),
            q@ == Seq::<Sample>::empty(),
            q.ring() == Ring::empty(),
    {
        let buf = Vec::new();
        let q = MetricQueue { buf, head: 0, limit: 0 };
        proof {
            assert(q.front() =~= Seq::<Sample>::empty());
            assert(q.back() =~= Seq::<Sample>::empty());
        }
        q
    }

    /// Number of samples retained.
    pub fn len(&self) -> (n: usize)
        requires
            self.wf(),
        ensures
            n == self@.len(),
    {
        self.buf.len()
    }

    /// Moves the samples so that the oldest stands first in the vector.
    fn straighten(&mut self)
        requires
            old(self).wf(),
        ensures
            final(self).wf(),
            final(self)@ == old(self)@,
            final(self).limit() == old(self).limit(),
            final(self).head == 0,
            final(self).front() == old(self).front() + old(self).back(),
            final(self).back() == Seq::<Sample>::empty(),
    {
        let n = self.buf.len();
        let mut out: Vec<Sample> = Vec::with_capacity(n);
        let mut i: usize = self.head;
        while i < n
            invariant
                n == self.buf@.len(),
                self.head <= i <= n,
                out@ == self.buf@.subrange(self.head as int, i as int),
            decreases n - i,
        {
            out.push(self.buf[i]);
            i = i + 1;
        }
        let mut k: usize = 0;
        while k < self.head
            invariant
                n == self.buf@.len(),
                self.head <= n,
                k <= self.head,
                out@ == self.buf@.subrange(self.head as int, n as int) + self.buf@.subrange(
                    0,
                    k as int,
                ),
            decreases self.head - k,
        {
            out.push(self.buf[k]);
            k = k + 1;
        }
        proof {
            assert(out@.subrange(0, out@.len() as int) =~= out@);
            assert(out@.subrange(0, 0) =~= Seq::<Sample>::empty());
            assert(out@ + Seq::<Sample>::empty() =~= out@);
        }
        self.buf = out;
        self.head = 0;
    }

    /// Raises the limit to what a push with `queue_size` asks for. A ring that
    /// wraps is laid out as one run before its limit rises.
    fn make_room(&mut self, queue_size: usize)
        requires
            old(self).wf(),
        ensures
            final(self).wf(),
            final(self).limit() == grown(old(self).limit(), queue_size as nat),
            final(self).limit() > old(self).limit() ==> {
                &&& final(self).front() == old(self).front() + old(self).back()
                &&& final(self).back() == Seq::<Sample>::empty()
            },
            final(self).limit() == old(self).limit() ==> {
                &&& final(self).front() == old(self).front()
                &&& final(self).back() == old(self).back()
            },
    {
        let wanted: usize = if queue_size > self.limit {
            queue_size
        } else if self.limit >= 1 {
            self.limit
        } else {
            1
        };
        if wanted > self.limit {
            if self.head != 0 {
                self.straighten();
            } else {
                proof {
                    assert(self.front() + self.back() =~= self.front());
                    assert(self.back() =~= Seq::<Sample>::empty());
                }
            }
            self.limit = wanted;
        }
    }

    /// Writes a sample into a ring that has room for at least one: over the
    /// oldest sample where the ring is full, at the end otherwise.
    fn put(&mut self, sample: Sample)
        requires
            old(self).wf(),
            old(self).limit() >= 1,
        ensures
            final(self).wf(),
            final(self).limit() == old(self).limit(),
            old(self)@.len() < old(self).limit() ==> {
                &&& final(self).front() == old(self).front().push(sample)
                &&& final(self).back() == old(self).back()
            },
            old(self)@.len() >= old(self).limit() && old(self).front().len() == 1 ==> {
                &&& final(self).front() == old(self).back().push(sample)
                &&& final(self).back() == Seq::<Sample>::empty()
            },
            old(self)@.len() >= old(self).limit() && old(self).front().len() != 1 ==> {
                &&& final(self).front() == old(self).front().drop_first()
                &&& final(self).back() == old(self).back().push(sample)
            },
    {
        if self.buf.len() == self.limit {
            let at = self.head;
            self.buf.set(at, sample);
            if at + 1 == self.limit {
                self.head = 0;
                proof {
                    assert(self.front() =~= old(self).back().push(sample));
                    assert(self.back() =~= Seq::<Sample>::empty());
                }
            } else {
                self.head = at + 1;
                proof {
                    assert(self.front() =~= old(self).front().drop_first());
                    assert(self.back() =~= old(self).back().push(sample));
                }
            }
        } else {
            self.buf.push(sample);
            proof {
                assert(self.front() =~= old(self).front().push(sample));
                assert(self.back() =~= old(self).back());
            }
        }
    }

    /// Appends a sample. A queue that is full at its limit gives up its
    /// oldest sample for it. The limit rises to `queue_size` where that is
    /// more, and never falls.
    pub fn push(&mut self, sample: Sample, queue_size: usize)
        requires
            old(self).wf(),
        ensures
            final(self).wf(),
            final(self).ring() == old(self).ring().pushed(queue_size as nat, sample),
            final(self).limit() == grown(old(self).limit(), queue_size as nat),
            final(self)@ == pushed(old(self)@, final(self).limit(), sample),
    {
        self.make_room(queue_size);
        self.put(sample);
        proof {
            old(self).lemma_ring();
            lemma_ring_pushed(old(self).ring(), queue_size as nat, sample);
        }
    }

    /// The retained samples inside `range`, as the two runs of the ring, each
    /// cut down to the range on its own and neither copied.
    pub fn span<'a>(&'a self, range: &TimeRange) -> (r: (&'a [Sample], &'a [Sample]))
        requires
            self.wf(),
        ensures
            r.0@ == trim(self.front(), *range),
            r.1@ == trim(self.back(), *range),
    {
        let n = self.buf.len();
        let all = self.buf.as_slice();
        let a = &all[self.head..n];
        let b = &all[0..self.head];
        (trim_slice(a, range), trim_slice(b, range))
    }
}

/// The contents of a queue after a batch of samples arrived one by one.
pub open spec fn pushed_all(s: Seq<Sample>, limit: nat, batch: Seq<Sample>) -> Seq<Sample>
    decreases batch.len(),
{
    if batch.len() == 0 {
        s
    } else {
        pushed_all(pushed(s, limit, batch[0]), limit, batch.drop_first())
    }
}

/// A store, as the ring of each key's queue, after a batch arrived under
/// `key`. The key has a queue afterwards in any case.
pub open spec fn store_pushed(
    store: Map<Seq<char>, Ring>,
    key: Seq<char>,
    batch: Seq<Sample>,
    queue_size: nat,
) -> Map<Seq<char>, Ring> {
    let before = if store.dom().contains(key) {
        store[key]
    } else {
        Ring::empty()
    };
    store.insert(key, before.pushed_all(queue_size, batch))
}

/// The samples of one series inside a time range, with their number.
#[derive(Debug, Clone)]
pub struct TimeSeriesSpan {
    pub samples: Vec<Sample>,
    pub count: usize,
}

impl View for TimeSeriesSpan {
    type V = Seq<Sample>;

    open spec fn view(&self) -> Seq<Sample> {
        self.samples@
    }
}

impl TimeSeriesSpan {
    /// The count says how many samples there are.
    pub open spec fn wf(&self) -> bool {
        self.count == self.samples@.len()
    }

    /// A span of the given samples.
    pub fn new(samples: Vec<Sample>) -> (span: TimeSeriesSpan)
        ensures
            span.wf(),
            span@ == samples@,
    {
        let count = samples.len();
        TimeSeriesSpan { samples, count }
    }
}

/// Anything that can say which of its samples lie in a time range.
pub trait TimeSeries {
    /// What the series needs to be queried.
    spec fn valid(&self) -> bool;

    /// The samples inside `range`, or nothing where the series has none to
    /// give at all.
    spec fn spanned(&self, range: TimeRange) -> Option<Seq<Sample>>;

    /// The samples inside `time_range`, copied out with their number.
    fn span(&self, time_range: &TimeRange) -> (r: Option<TimeSeriesSpan>)
        requires
            self.valid(),
        ensures
            r is Some == self.spanned(*time_range) is Some,
            r matches Some(span) ==> span.wf() && span@ == self.spanned(*time_range)->0,
    ;
}

/// Appends the samples of a slice to a vector.
fn extend_samples(out: &mut Vec<Sample>, more: &[Sample])
    ensures
        final(out)@ == old(out)@ + more@,
{
    let n = more.len();
    let mut i: usize = 0;
    proof {
        assert(out@ + more@.subrange(0, 0) =~= out@);
    }
    while i < n
        invariant
            n == more@.len(),
            i <= n,
            out@ == old(out)@ + more@.subrange(0, i as int),
        decreases n - i,
    {
        out.push(more[i]);
        proof {
            assert(more@.subrange(0, i as int).push(more@[i as int]) =~= more@.subrange(
                0,
                i as int + 1,
            ));
            assert((old(out)@ + more@.subrange(0, i as int)).push(more@[i as int]) =~= old(out)@
                + more@.subrange(0, i as int + 1));
        }
        i = i + 1;
    }
    proof {
        assert(more@.subrange(0, n as int) =~= more@);
    }
}

impl MetricQueue {
    /// The retained samples inside `range`: what is left of each run, the
    /// older run first.
    pub open spec fn span_of(&self, range: TimeRange) -> Seq<Sample> {
        trim(self.front(), range) + trim(self.back(), range)
    }
}

/// A queue keeps the newest samples up to its limit, in the order in which
/// they arrived: after any batch of pushes onto a queue within its limit, the
/// queue holds the last `limit` of all that it held and was given, or all of
/// it where that is less.
pub proof fn lemma_pushes_keep_newest(s: Seq<Sample>, limit: nat, batch: Seq<Sample>)
    requires
        limit >= 1,
        s.len() <= limit,
    ensures
        pushed_all(s, limit, batch) == newest(s + batch, limit),
    decreases batch.len(),
{
    if batch.len() == 0 {
        assert(s + batch =~= s);
    } else {
        let next = pushed(s, limit, batch[0]);
        let rest = batch.drop_first();
        lemma_pushes_keep_newest(next, limit, rest);
        if s.len() < limit {
            assert(next + rest =~= s + batch);
        } else {
            assert(next + rest =~= (s + batch).drop_first());
            assert(newest(next + rest, limit) =~= newest(s + batch, limit));
        }
    }
}

/// One push onto a valid ring leaves a valid ring, with the limit risen as
/// asked and the samples that a push leaves.
pub proof fn lemma_ring_pushed(ring: Ring, queue_size: nat, sample: Sample)
    requires
        ring.wf(),
    ensures
        ring.pushed(queue_size, sample).wf(),
        ring.pushed(queue_size, sample).limit == grown(ring.limit, queue_size),
        ring.pushed(queue_size, sample).samples() == pushed(
            ring.samples(),
            grown(ring.limit, queue_size),
            sample,
        ),
{
    let after = ring.pushed(queue_size, sample);
    assert(after.samples() =~= pushed(ring.samples(), grown(ring.limit, queue_size), sample));
}

proof fn lemma_ring_pushed_all(ring: Ring, queue_size: nat, batch: Seq<Sample>)
    requires
        ring.wf(),
        batch.len() > 0,
    ensures
        ring.pushed_all(queue_size, batch).wf(),
        ring.pushed_all(queue_size, batch).limit == grown(ring.limit, queue_size),
        ring.pushed_all(queue_size, batch).samples() == pushed_all(
            ring.samples(),
            grown(ring.limit, queue_size),
            batch,
        ),
    decreases batch.len(),
{
    let next = ring.pushed(queue_size, batch[0]);
    let rest = batch.drop_first();
    let limit = grown(ring.limit, queue_size);
    lemma_ring_pushed(ring, queue_size, batch[0]);
    assert(ring.pushed_all(queue_size, batch) == next.pushed_all(queue_size, rest));
    assert(pushed_all(ring.samples(), limit, batch) == pushed_all(next.samples(), limit, rest));
    if rest.len() > 0 {
        lemma_ring_pushed_all(next, queue_size, rest);
        assert(grown(limit, queue_size) == limit);
    } else {
        assert(next.pushed_all(queue_size, rest) == next);
        assert(pushed_all(next.samples(), limit, rest) == next.samples());
    }
}

/// Eviction: a queue holds the newest samples up to its limit, in the order
/// in which they arrived. After a batch of pushes the ring holds the last
/// `limit` of all that it held and was given, or all of it where that is
/// less; so pushing `limit + k` samples into an empty queue leaves exactly
/// the last `limit` of them.
pub proof fn lemma_ring_keeps_newest(ring: Ring, queue_size: nat, batch: Seq<Sample>)
    requires
        ring.wf(),
        batch.len() > 0,
    ensures
        ring.pushed_all(queue_size, batch).wf(),
        ring.pushed_all(queue_size, batch).limit == grown(ring.limit, queue_size),
        ring.pushed_all(queue_size, batch).samples() == newest(
            ring.samples() + batch,
            grown(ring.limit, queue_size),
        ),
{
    lemma_ring_pushed_all(ring, queue_size, batch);
    lemma_pushes_keep_newest(ring.samples(), grown(ring.limit, queue_size), batch);
}

/// What a query gives does not depend on where the ring wraps: for a queue
/// whose timestamps never go down, the two runs cut down one by one hold
/// exactly the queue's samples inside the range, in their order.
pub proof fn lemma_span_ordered(queue: MetricQueue, range: TimeRange)
    requires
        time_ordered(queue@),
    ensures
        queue.span_of(range) == within(queue@, range),
{
    let a = queue.front();
    let b = queue.back();
    queue.lemma_runs();
    assert forall|i: int, j: int| 0 <= i <= j < a.len() implies a[i].time <= a[j].time by {
        assert(a[i] == queue@[i] && a[j] == queue@[j]);
    }
    assert forall|i: int, j: int| 0 <= i <= j < b.len() implies b[i].time <= b[j].time by {
        assert(b[i] == queue@[a.len() + i] && b[j] == queue@[a.len() + j]);
    }
    lemma_trim_ordered(a, range);
    lemma_trim_ordered(b, range);
    Seq::filter_distributes_over_add(a, b, in_range(range));
    assert(within(a + b, range) == within(a, range) + within(b, range));
}

impl Default for MetricQueue {
    fn default() -> (q: MetricQueue)
        ensures
            q.wf(),
            q@ == Seq::<Sample>::empty(),
            q.ring() == Ring::empty(),
    {
        MetricQueue::new()
    }
}

impl TimeSeries for MetricQueue {
    open spec fn valid(&self) -> bool {
        self.wf()
    }

    open spec fn spanned(&self, range: TimeRange) -> Option<Seq<Sample>> {
        Some(self.span_of(range))
    }

    /// A queue always answers, with no samples where none lie in the range.
    fn span(&self, time_range: &TimeRange) -> (r: Option<TimeSeriesSpan>) {
        let (a, b) = MetricQueue::span(self, time_range);
        let mut samples: Vec<Sample> = Vec::with_capacity(a.len());
        extend_samples(&mut samples, a);
        extend_samples(&mut samples, b);
        proof {
            assert(Seq::<Sample>::empty() + a@ =~= a@);
        }
        Some(TimeSeriesSpan::new(samples))
    }
}

/// The queues of a store, one per key. A queue is made when its key is first
/// pushed to, and is never taken away again.
#[derive(Debug, Clone)]
pub struct MetricQueues {
    keys: Vec<MetricKey>,
    queues: Vec<MetricQueue>,
}

impl View for MetricQueues {
    type V = Map<Seq<char>, Seq<Sample>>;

    /// The retained samples of every key that has a queue.
    open spec fn view(&self) -> Map<Seq<char>, Seq<Sample>> {
        Map::new(|key: Seq<char>| self.has(key), |key: Seq<char>| self.queue(key)@)
    }
}

impl MetricQueues {
    /// No key occurs twice, and every queue is a valid ring.
    pub closed spec fn wf(&self) -> bool {
        &&& self.keys@.len() == self.queues@.len()
        &&& distinct(self.keys@)
        &&& forall|i: int| 0 <= i < self.queues@.len() ==> (#[trigger] self.queues@[i]).wf()
    }

    spec fn slot(&self, key: Seq<char>) -> int {
        slot(self.keys@, key)
    }

    /// Whether `key` has a queue.
    pub closed spec fn has(&self, key: Seq<char>) -> bool {
        listed(self.keys@, key)
    }

    /// The queue of `key`, where it has one.
    pub closed spec fn queue(&self, key: Seq<char>) -> MetricQueue {
        self.queues@[self.slot(key)]
    }

    /// The ring of the queue of `key`: an empty one where it has no queue.
    pub open spec fn ring_of(&self, key: Seq<char>) -> Ring {
        if self.has(key) {
            self.queue(key).ring()
        } else {
            Ring::empty()
        }
    }

    /// The ring of each key's queue.
    pub open spec fn states(&self) -> Map<Seq<char>, Ring> {
        Map::new(|key: Seq<char>| self.has(key), |key: Seq<char>| self.queue(key).ring())
    }

    /// The keys in the order in which their queues were made.
    pub closed spec fn keys(&self) -> Seq<Seq<char>> {
        Seq::new(self.keys@.len(), |i: int| self.keys@[i]@)
    }

    /// Every queue of a valid store is a valid ring.
    pub proof fn lemma_queue_wf(&self, key: Seq<char>)
        requires
            self.wf(),
            self.has(key),
        ensures
            self.queue(key).wf(),
    {
    }

    /// The keys of a valid store are those that have a queue, each once.
    pub proof fn lemma_keys(&self)
        requires
            self.wf(),
        ensures
            self.keys().no_duplicates(),
            forall|key: Seq<char>| self.keys().contains(key) <==> self.has(key),
    {
        assert forall|key: Seq<char>| self.keys().contains(key) <==> self.has(key) by {
            if self.has(key) {
                let i = self.slot(key);
                assert(self.keys()[i] == key);
            }
        }
    }

    /// A store without queues.
    pub fn new() -> (m: MetricQueues)
        ensures
            m.wf(),
            forall|key: Seq<char>| !m.has(key),
            m.keys() == Seq::<Seq<char>>::empty(),
    {
        let m = MetricQueues { keys: Vec::new(), queues: Vec::new() };
        proof {
            assert(m.keys() =~= Seq::<Seq<char>>::empty());
        }
        m
    }

    /// Number of queues.
    pub fn len(&self) -> (n: usize)
        requires
            self.wf(),
        ensures
            n == self.keys().len(),
    {
        self.keys.len()
    }

    /// The key of the `i`-th queue made.
    pub fn key_at(&self, i: usize) -> (key: &MetricKey)
        requires
            self.wf(),
            i < self.keys().len(),
        ensures
            key@ == self.keys()[i as int],
    {
        &self.keys[i]
    }

    /// The queue of `key`, or nothing where no sample was ever pushed under
    /// it.
    pub fn get(&self, key: &MetricKey) -> (q: Option<&MetricQueue>)
        requires
            self.wf(),
        ensures
            q is Some == self.has(key@),
            q matches Some(queue) ==> *queue == self.queue(key@) && queue.wf(),
    {
        match position(&self.keys, key) {
            Some(i) => Some(&self.queues[i]),
            None => None,
        }
    }

    /// Makes sure that `key` has a queue, an empty one where it had none, and
    /// says where it stands.
    fn ensure(&mut self, key: &MetricKey) -> (at: usize)
        requires
            old(self).wf(),
        ensures
            final(self).wf(),
            at < final(self).keys@.len(),
            final(self).keys@[at as int]@ == key@,
            at == final(self).slot(key@),
            final(self).has(key@),
            forall|other: Seq<char>|
                other != key@ ==> final(self).has(other) == old(self).has(other)
                    && (old(self).has(other) ==> final(self).queue(other)
                    == old(self).queue(other)),
            final(self).keys() == if old(self).has(key@) {
                old(self).keys()
            } else {
                old(self).keys().push(key@)
            },
            final(self).queue(key@).ring() == old(self).ring_of(key@),
    {
        match position(&self.keys, key) {
            Some(i) => {
                proof {
                    assert(self.keys() =~= old(self).keys());
                }
                i
            },
            None => {
                let ghost n = self.keys@.len() as int;
                self.keys.push(key.clone());
                self.queues.push(MetricQueue::new());
                proof {
                    assert(self.keys@[n]@ == key@);
                    assert forall|other: Seq<char>| other != key@ implies self.has(other) == old(
                        self,
                    ).has(other) && (old(self).has(other) ==> self.queue(other) == old(
                        self,
                    ).queue(other)) by {
                        if old(self).has(other) {
                            let k = old(self).slot(other);
                            assert(self.keys@[k]@ == other);
                            lemma_slot(self.keys@, other, k);
                        }
                        if self.has(other) {
                            let k = self.slot(other);
                            assert(k != n);
                            assert(old(self).keys@[k]@ == other);
                            lemma_slot(old(self).keys@, other, k);
                        }
                    }
                    assert(self.keys() =~= old(self).keys().push(key@));
                }
                self.keys.len() - 1
            },
        }
    }

    /// Appends `samples` in order to the queue of `key`, which is made first
    /// where there is none, so that the key has a queue afterwards even where
    /// `samples` is empty. No other queue changes.
    pub fn append(&mut self, key: &MetricKey, samples: &[Sample], queue_size: usize)
        requires
            old(self).wf(),
        ensures
            final(self).wf(),
            final(self).has(key@),
            forall|other: Seq<char>|
                other != key@ ==> final(self).has(other) == old(self).has(other)
                    && (old(self).has(other) ==> final(self).queue(other)
                    == old(self).queue(other)),
            final(self).keys() == if old(self).has(key@) {
                old(self).keys()
            } else {
                old(self).keys().push(key@)
            },
            final(self).queue(key@).ring() == old(self).ring_of(key@).pushed_all(
                queue_size as nat,
                samples@,
            ),
            final(self).states() == store_pushed(
                old(self).states(),
                key@,
                samples@,
                queue_size as nat,
            ),
    {
        let at = self.ensure(key);
        let ghost mid = *self;
        let ghost start = self.queues@[at as int].ring();
        let ghost size = queue_size as nat;
        let n = samples.len();
        let mut i: usize = 0;
        proof {
            assert(samples@.subrange(0, n as int) =~= samples@);
        }
        while i < n
            invariant
                n == samples@.len(),
                i <= n,
                mid.wf(),
                at < mid.keys@.len(),
                start == mid.queues@[at as int].ring(),
                size == queue_size as nat,
                self.keys == mid.keys,
                self.queues@.len() == mid.queues@.len(),
                forall|k: int|
                    0 <= k < self.queues@.len() && k != at ==> self.queues@[k] == mid.queues@[k],
                self.queues@[at as int].wf(),
                self.queues@[at as int].ring().pushed_all(
                    size,
                    samples@.subrange(i as int, n as int),
                ) == start.pushed_all(size, samples@),
            decreases n - i,
        {
            proof {
                let rest = samples@.subrange(i as int, n as int);
                assert(rest.drop_first() =~= samples@.subrange(i as int + 1, n as int));
                assert(rest[0] == samples@[i as int]);
            }
            self.queues[at].push(samples[i], queue_size);
            i = i + 1;
        }
        proof {
            assert(samples@.subrange(n as int, n as int) =~= Seq::<Sample>::empty());
            assert(self.wf()) by {
                assert forall|k: int| 0 <= k < self.queues@.len() implies (
                #[trigger] self.queues@[k]).wf() by {
                    if k != at {
                        assert(mid.queues@[k].wf());
                    }
                }
            }
            assert(self.keys@[at as int]@ == key@);
            assert(self.slot(key@) == at);
            assert(self.keys() =~= mid.keys());
            assert forall|other: Seq<char>| other != key@ implies self.has(other) == mid.has(other)
                && (mid.has(other) ==> self.queue(other) == mid.queue(other)) by {
                if mid.has(other) {
                    let k = mid.slot(other);
                    assert(self.keys@[k]@ == other);
                    lemma_slot(self.keys@, other, k);
                    assert(k != at);
                }
                if self.has(other) {
                    let k = self.slot(other);
                    assert(mid.keys@[k]@ == other);
                }
            }
            assert(self.states() =~= store_pushed(
                old(self).states(),
                key@,
                samples@,
                queue_size as nat,
            ));
        }
    }
}

/// The time-series store: the queues, and the room that each queue is given.
#[derive(Debug, Clone)]
pub struct MetricConsumer {
    metrics: MetricQueues,
    queue_size: usize,
}

impl MetricConsumer {
    /// The queues are valid.
    pub open spec fn wf(&self) -> bool {
        self.queues().wf()
    }

    /// The queues of the store.
    pub closed spec fn queues(&self) -> MetricQueues {
        self.metrics
    }

    /// How many samples each queue retains.
    pub closed spec fn queue_size(&self) -> nat {
        self.queue_size as nat
    }

    /// An empty store whose queues will retain `queue_size` samples each.
    pub fn new(queue_size: usize) -> (c: MetricConsumer)
        ensures
            c.wf(),
            c.queue_size() == queue_size,
            forall|key: Seq<char>| !c.queues().has(key),
            c.queues().keys() == Seq::<Seq<char>>::empty(),
    {
        MetricConsumer { metrics: MetricQueues::new(), queue_size }
    }

    /// Appends `samples` in order under `key`, whose queue is made first
    /// where there is none. A queue that is full gives up its oldest sample
    /// for each new one; nothing is reported. No other queue changes.
    pub fn push(&mut self, key: &MetricKey, samples: &[Sample])
        requires
            old(self).wf(),
        ensures
            final(self).wf(),
            final(self).queue_size() == old(self).queue_size(),
            final(self).queues().has(key@),
            forall|other: Seq<char>|
                other != key@ ==> final(self).queues().has(other) == old(self).queues().has(other)
                    && (old(self).queues().has(other) ==> final(self).queues().queue(other)
                    == old(self).queues().queue(other)),
            final(self).queues().keys() == if old(self).queues().has(key@) {
                old(self).queues().keys()
            } else {
                old(self).queues().keys().push(key@)
            },
            final(self).queues().queue(key@).ring() == old(self).queues().ring_of(
                key@,
            ).pushed_all(old(self).queue_size(), samples@),
            final(self).queues().states() == store_pushed(
                old(self).queues().states(),
                key@,
                samples@,
                old(self).queue_size(),
            ),
    {
        self.metrics.append(key, samples, self.queue_size);
    }

    /// The queues, to be read.
    pub fn metrics(&self) -> (m: &MetricQueues)
        requires
            self.wf(),
        ensures
            *m == self.queues(),
            m.wf(),
    {
        &self.metrics
    }
}

} // verus!
