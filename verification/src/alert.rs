//! Alerts on a metric: a predicate tried on every sample that came since the
//! last look.
use vstd::prelude::*;

use crate::consumer::{lemma_trim_front_cut, trim, MetricQueue, MetricQueues};
use crate::range::{TimeBound, TimeRange};
use crate::view::{metric_span, samples_of, MetricSyntheses, MetricSynthesis};
use crate::{MetricKey, Sample, Time};

verus! {

/// The latest timestamp among the samples, zero where there is none.
pub open spec fn max_time(s: Seq<Sample>) -> Time
    decreases s.len(),
{
    if s.len() == 0 {
        0
    } else if max_time(s.drop_last()) >= s.last().time {
        max_time(s.drop_last())
    } else {
        s.last().time
    }
}

/// Where the cursor stands after the samples of a span were looked at: just
/// past the latest of them, as far as timestamps go, and never further back
/// than it stood. A span without samples leaves it where it is.
pub open spec fn advanced(cursor: Time, span: Seq<Sample>) -> Time {
    if span.len() == 0 {
        cursor
    } else {
        let next = if max_time(span) < u64::MAX {
            (max_time(span) + 1) as Time
        } else {
            u64::MAX
        };
        if next > cursor {
            next
        } else {
            cursor
        }
    }
}

/// What a look at `samples` comes to: the cursor stands where the samples
/// put it, a look that tripped had a sample that the predicate can say yes
/// to, and a look that did not trip had the predicate say no to every sample.
pub open spec fn judged<F: Fn(Sample) -> bool>(
    predicate: F,
    before: Time,
    after: Time,
    tripped: bool,
    samples: Seq<Sample>,
) -> bool {
    &&& after == advanced(before, samples)
    &&& tripped ==> exists|i: int|
        0 <= i < samples.len() && call_ensures(predicate, (#[trigger] samples[i],), true)
    &&& !tripped ==> forall|i: int|
        0 <= i < samples.len() ==> call_ensures(predicate, (#[trigger] samples[i],), false)
}

/// No sample is later than the latest.
pub proof fn lemma_max_time(s: Seq<Sample>)
    ensures
        forall|i: int| 0 <= i < s.len() ==> (#[trigger] s[i]).time <= max_time(s),
    decreases s.len(),
{
    if s.len() > 0 {
        let rest = s.drop_last();
        lemma_max_time(rest);
        assert forall|i: int| 0 <= i < s.len() implies (#[trigger] s[i]).time <= max_time(s) by {
            if i < rest.len() {
                assert(s[i] == rest[i]);
            }
        }
    }
}

proof fn lemma_run_settles(run: Seq<Sample>, cursor: Time, next: Time, bound: Time)
    requires
        cursor <= next,
        bound < next,
        forall|i: int|
            0 <= i < trim(run, TimeRange::since(cursor)).len() ==> (#[trigger] trim(
                run,
                TimeRange::since(cursor),
            )[i]).time <= bound,
    ensures
        trim(run, TimeRange::since(next)) == Seq::<Sample>::empty(),
{
    let n = run.len() as int;
    let k = lemma_trim_front_cut(run, TimeBound::Included(cursor));
    let seen = trim(run, TimeRange::since(cursor));
    assert(seen == run.subrange(k, n));
    let again = lemma_trim_front_cut(run, TimeBound::Included(next));
    if again < n {
        if again < k {
            assert(!TimeBound::Included(cursor).admits_from(run[again].time));
        } else {
            assert(seen[again - k] == run[again]);
            assert(seen[again - k].time <= bound);
        }
    }
    assert(run.subrange(n, n) =~= Seq::<Sample>::empty());
}

/// A look leaves nothing to look at again: once the alerter has looked at a
/// queue from its cursor on, the queue, unchanged, holds no sample from the
/// new cursor on, so the next look tries the predicate on nothing, trips on
/// nothing and leaves the cursor where it is. The one exception is a sample
/// at the last timestamp there is, which no cursor can pass.
pub proof fn lemma_alert_settles(queue: MetricQueue, cursor: Time)
    requires
        max_time(queue.span_of(TimeRange::since(cursor))) < u64::MAX,
    ensures
        queue.span_of(
            TimeRange::since(advanced(cursor, queue.span_of(TimeRange::since(cursor)))),
        ) == Seq::<Sample>::empty(),
        advanced(
            advanced(cursor, queue.span_of(TimeRange::since(cursor))),
            Seq::<Sample>::empty(),
        ) == advanced(cursor, queue.span_of(TimeRange::since(cursor))),
{
    let range = TimeRange::since(cursor);
    let a = trim(queue.front(), range);
    let b = trim(queue.back(), range);
    let seen = queue.span_of(range);
    let next = advanced(cursor, seen);
    let bound = max_time(seen);
    lemma_max_time(seen);
    assert forall|i: int| 0 <= i < a.len() implies (#[trigger] a[i]).time <= bound by {
        assert(seen[i] == a[i]);
    }
    assert forall|i: int| 0 <= i < b.len() implies (#[trigger] b[i]).time <= bound by {
        assert(seen[a.len() + i] == b[i]);
    }
    if seen.len() == 0 {
        assert(a.len() == 0 && b.len() == 0);
        lemma_run_unseen(queue.front(), cursor);
        lemma_run_unseen(queue.back(), cursor);
    } else {
        lemma_run_settles(queue.front(), cursor, next, bound);
        lemma_run_settles(queue.back(), cursor, next, bound);
    }
    assert(Seq::<Sample>::empty() + Seq::<Sample>::empty() =~= Seq::<Sample>::empty());
}

proof fn lemma_run_unseen(run: Seq<Sample>, cursor: Time)
    requires
        trim(run, TimeRange::since(cursor)).len() == 0,
    ensures
        trim(run, TimeRange::since(cursor)) == Seq::<Sample>::empty(),
{
    assert(trim(run, TimeRange::since(cursor)) =~= Seq::<Sample>::empty());
}

/// Watches one key. It remembers up to where it has looked, so that no
/// sample is tried twice. The price is that a sample which arrives with a
/// timestamp no later than one already looked at is never tried: timestamps
/// are taken to go up.
pub struct MetricAlerter<F: Fn(Sample) -> bool> {
    from: Time,
    key: MetricKey,
    trip: F,
}

impl<F: Fn(Sample) -> bool> MetricAlerter<F> {
    /// The timestamp from which the next look starts.
    pub closed spec fn cursor(&self) -> Time {
        self.from
    }

    /// The key that is watched.
    pub closed spec fn watched(&self) -> Seq<char> {
        self.key@
    }

    /// The predicate that says whether a sample trips the alert.
    pub closed spec fn predicate(&self) -> F {
        self.trip
    }

    /// An alerter on `key` that starts to look at `from`.
    pub fn new(from: Time, key: MetricKey, trip: F) -> (a: Self)
        ensures
            a.cursor() == from,
            a.watched() == key@,
            a.predicate() == trip,
    {
        MetricAlerter { from, key, trip }
    }

    /// The timestamp from which the next look starts.
    pub fn from(&self) -> (t: Time)
        ensures
            t == self.cursor(),
    {
        self.from
    }

    /// Tries the predicate on every sample of a span and moves the cursor
    /// past the latest of them. The answer is whether any sample tripped.
    pub fn judge(&mut self, samples: &[Sample]) -> (tripped: bool)
        requires
            forall|s: Sample| call_requires(old(self).predicate(), (s,)),
        ensures
            final(self).watched() == old(self).watched(),
            final(self).predicate() == old(self).predicate(),
            judged(
                old(self).predicate(),
                old(self).cursor(),
                final(self).cursor(),
                tripped,
                samples@,
            ),
    {
        let n = samples.len();
        let mut last_time: Option<Time> = None;
        let mut tripped = false;
        let mut i: usize = 0;
        proof {
            assert(self.trip == old(self).predicate());
        }
        while i < n
            invariant
                n == samples@.len(),
                i <= n,
                self.trip == old(self).trip,
                self.key == old(self).key,
                self.from == old(self).from,
                forall|s: Sample| call_requires(self.trip, (s,)),
                last_time is Some == (i > 0),
                last_time matches Some(t) ==> t == max_time(samples@.subrange(0, i as int)),
                tripped ==> exists|k: int|
                    0 <= k < i && call_ensures(self.trip, (#[trigger] samples@[k],), true),
                !tripped ==> forall|k: int|
                    0 <= k < i ==> call_ensures(self.trip, (#[trigger] samples@[k],), false),
            decreases n - i,
        {
            let sample = samples[i];
            proof {
                let now = samples@.subrange(0, i as int + 1);
                assert(now.drop_last() =~= samples@.subrange(0, i as int));
                assert(now.last() == sample);
                assert(max_time(now) == if max_time(now.drop_last()) >= sample.time {
                    max_time(now.drop_last())
                } else {
                    sample.time
                });
                if i == 0 {
                    assert(max_time(now.drop_last()) == 0);
                }
            }
            let update_time = match last_time {
                Some(time) => time < sample.time,
                None => true,
            };
            if update_time {
                last_time = Some(sample.time);
            }
            if (self.trip)(sample) {
                tripped = true;
            }
            i = i + 1;
        }
        proof {
            assert(samples@.subrange(0, n as int) =~= samples@);
        }
        if let Some(last_time) = last_time {
            let next = if last_time < u64::MAX {
                last_time + 1
            } else {
                u64::MAX
            };
            if next > self.from {
                self.from = next;
            }
        }
        tripped
    }

    /// Looks at the samples that the watched key stands for from the cursor
    /// on. Where the key stands for nothing there is no data: the answer is
    /// `None` and the cursor stays. Otherwise the predicate is tried on every
    /// sample, the cursor moves past the latest of them, and the answer is
    /// whether any sample tripped. Where a derivation answers for the key,
    /// the samples are whatever the derivation gave.
    pub fn alert<S: MetricSynthesis>(
        &mut self,
        metrics: &MetricQueues,
        syntheses: &MetricSyntheses<S>,
    ) -> (r: Option<bool>)
        requires
            metrics.wf(),
            syntheses.wf(),
            forall|s: Sample| call_requires(old(self).predicate(), (s,)),
        ensures
            final(self).watched() == old(self).watched(),
            final(self).predicate() == old(self).predicate(),
            final(self).cursor() >= old(self).cursor(),
            !metrics.has(old(self).watched()) && !syntheses.has(old(self).watched()) ==> r is None,
            r is None ==> final(self).cursor() == old(self).cursor(),
            r matches Some(tripped) ==> exists|samples: Seq<Sample>| #[trigger]
                judged(
                    old(self).predicate(),
                    old(self).cursor(),
                    final(self).cursor(),
                    tripped,
                    samples,
                ),
            metrics.has(old(self).watched()) ==> r is Some && judged(
                old(self).predicate(),
                old(self).cursor(),
                final(self).cursor(),
                r->0,
                metrics.queue(old(self).watched()).span_of(TimeRange::since(old(self).cursor())),
            ),
    {
        let time_range = TimeRange::starting_at(self.from);
        let found = metric_span(metrics, syntheses, &self.key, &time_range);
        let ghost seen = samples_of(found);
        let r = match found {
            Some(span) => Some(self.judge(span.samples.as_slice())),
            None => None,
        };
        proof {
            if r is Some {
                assert(judged(
                    old(self).predicate(),
                    old(self).cursor(),
                    self.cursor(),
                    r->0,
                    seen->0,
                ));
            }
        }
        r
    }
}

} // verus!
