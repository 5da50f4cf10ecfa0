//! What a chart shows: each requested key resolved to a series, raw samples
//! before derived ones, and the series thinned to a budget of points.
use vstd::prelude::*;

use crate::consumer::{MetricQueues, TimeSeries, TimeSeriesSpan};
use crate::keys::{distinct, lemma_slot, listed, names, position, slot};
use crate::range::TimeRange;
use crate::{MetricKey, Sample, Time};

verus! {

/// Most points that a chart shows unless told otherwise.
pub const MAX_DISPLAY_DATA_POINTS: usize = 1024;

/// Number of groups that `len` samples fall into, `chunk` to a group, the
/// last group taking what is left.
pub open spec fn groups(len: nat, chunk: nat) -> nat {
    if chunk == 0 {
        0
    } else {
        ((len + chunk - 1) / chunk as int) as nat
    }
}

/// Where in a series of `len` samples the last sample of group `i` stands.
pub open spec fn group_end(len: nat, chunk: nat, i: int) -> int {
    if (i + 1) * chunk <= len {
        (i + 1) * chunk - 1
    } else {
        len - 1
    }
}

/// A series thinned: of each run of `chunk` samples, and of the shorter run
/// that may be left at the end, only the last sample.
pub open spec fn decimated(s: Seq<Sample>, chunk: nat) -> Seq<Sample> {
    Seq::new(groups(s.len(), chunk), |i: int| s[group_end(s.len(), chunk, i)])
}

/// The group size that brings `total` samples down to `budget` points: the
/// quotient, rounded up.
pub open spec fn chunk_for(total: nat, budget: nat) -> nat {
    groups(total, budget)
}

/// `k` groups of `chunk` hold `len` samples when the first `k - 1` do not
/// and `k` do.
proof fn lemma_groups(len: nat, chunk: nat, k: nat)
    requires
        chunk > 0,
        k > 0 ==> (k - 1) * chunk < len,
        len <= k * chunk,
    ensures
        groups(len, chunk) == k,
{
    let q = (len + chunk - 1) / chunk as int;
    assert(q == k) by (nonlinear_arith)
        requires
            chunk > 0,
            k > 0 ==> (k - 1) * chunk < len,
            len <= k * chunk,
            q == (len + chunk - 1) / chunk as int,
    ;
}

/// Thins a series: keeps the last sample of each run of `chunk` samples and
/// of the shorter run that may be left at the end.
pub fn decimate(samples: &[Sample], chunk: usize) -> (out: Vec<Sample>)
    requires
        chunk > 0,
    ensures
        out@ == decimated(samples@, chunk as nat),
{
    let n = samples.len();
    let mut out: Vec<Sample> = Vec::new();
    let mut start: usize = 0;
    proof {
        assert(out@.len() * chunk == 0) by (nonlinear_arith)
            requires
                out@.len() == 0,
        ;
    }
    while start < n
        invariant
            chunk > 0,
            n == samples@.len(),
            start <= n,
            start < n ==> start == out@.len() * chunk,
            start == n && n > 0 ==> (out@.len() - 1) * chunk < n <= out@.len() * chunk,
            n == 0 ==> out@.len() == 0,
            forall|i: int|
                0 <= i < out@.len() ==> out@[i] == samples@[group_end(n as nat, chunk as nat, i)],
        decreases n - start,
    {
        let ghost k = out@.len() as int;
        let end: usize = if n - start > chunk {
            start + chunk
        } else {
            n
        };
        proof {
            assert((k + 1) * chunk == k * chunk + chunk) by (nonlinear_arith);
            assert(end - 1 == group_end(n as nat, chunk as nat, k));
        }
        out.push(samples[end - 1]);
        start = end;
    }
    proof {
        if n > 0 {
            lemma_groups(n as nat, chunk as nat, out@.len());
        } else {
            lemma_groups(0, chunk as nat, 0);
        }
        assert(out@ =~= decimated(samples@, chunk as nat));
    }
    out
}

/// A series within the budget is shown as it is: thinning leaves every
/// sample where it was.
pub proof fn lemma_decimated_unchanged(s: Seq<Sample>, budget: nat)
    requires
        budget > 0,
        s.len() <= budget,
    ensures
        decimated(s, chunk_for(s.len(), budget)) == s,
{
    let chunk = chunk_for(s.len(), budget);
    if s.len() == 0 {
        lemma_groups(0, budget, 0);
        assert(chunk == 0);
        assert(decimated(s, chunk) =~= s);
    } else {
        lemma_groups(s.len(), budget, 1);
        assert(chunk == 1);
        lemma_groups(s.len(), 1, s.len());
        assert(decimated(s, chunk) =~= s);
    }
}

/// A series over the budget is thinned to no more points than the budget,
/// and the last point shown is the last sample of the series.
pub proof fn lemma_decimated_within_budget(s: Seq<Sample>, budget: nat)
    requires
        budget > 0,
        s.len() > budget,
    ensures
        decimated(s, chunk_for(s.len(), budget)).len() <= budget,
        decimated(s, chunk_for(s.len(), budget)).len() > 0,
        decimated(s, chunk_for(s.len(), budget)).last() == s.last(),
{
    let n = s.len();
    let chunk = chunk_for(n, budget);
    assert(chunk > 0 && n <= budget * chunk) by (nonlinear_arith)
        requires
            budget > 0,
            n > budget,
            chunk == (n + budget - 1) / budget as int,
    ;
    lemma_decimated_last(s, chunk);
    let g = groups(n, chunk);
    assert(g <= budget) by (nonlinear_arith)
        requires
            chunk > 0,
            n <= budget * chunk,
            g == (n + chunk - 1) / chunk as int,
    ;
}

/// Thinning never loses the newest sample: the last point of a thinned
/// series is the last sample of the series.
pub proof fn lemma_decimated_last(s: Seq<Sample>, chunk: nat)
    requires
        chunk > 0,
        s.len() > 0,
    ensures
        0 < decimated(s, chunk).len() <= s.len(),
        decimated(s, chunk).last() == s.last(),
{
    let n = s.len();
    let g = groups(n, chunk);
    assert(g > 0 && g <= n && g * chunk >= n) by (nonlinear_arith)
        requires
            chunk > 0,
            n > 0,
            g == (n + chunk - 1) / chunk as int,
    ;
    let i = g - 1;
    assert((i + 1) * chunk >= n);
    if (i + 1) * chunk <= n {
        assert(group_end(n, chunk, i) == n - 1);
    }
}

/// A group size that reaches past the end of a series leaves one point: the
/// last sample.
pub proof fn lemma_decimated_to_last(s: Seq<Sample>, chunk: nat)
    requires
        0 < s.len() <= chunk,
    ensures
        decimated(s, chunk) == seq![s.last()],
{
    lemma_groups(s.len(), chunk, 1);
    assert(decimated(s, chunk) =~= seq![s.last()]);
}

/// A derived metric: samples computed on demand from the store. What an
/// implementation gives is its own affair; nothing is taken for granted of
/// it.
pub trait MetricSynthesis {
    /// The samples that the derivation gives for the store and the time
    /// range, or nothing where it has none to give.
    fn span(&self, metrics: &MetricQueues, time_range: &TimeRange) -> (r: Option<TimeSeriesSpan>)
        requires
            metrics.wf(),
    ;
}

/// The derived metrics, each under the key that it answers to.
pub struct MetricSyntheses<S: MetricSynthesis> {
    keys: Vec<MetricKey>,
    items: Vec<S>,
}

impl<S: MetricSynthesis> MetricSyntheses<S> {
    /// No key occurs twice.
    pub closed spec fn wf(&self) -> bool {
        &&& self.keys@.len() == self.items@.len()
        &&& distinct(self.keys@)
    }

    spec fn slot(&self, key: Seq<char>) -> int {
        slot(self.keys@, key)
    }

    /// Whether a derivation is registered under `key`.
    pub closed spec fn has(&self, key: Seq<char>) -> bool {
        listed(self.keys@, key)
    }

    /// The derivation registered under `key`, where there is one.
    pub closed spec fn entry(&self, key: Seq<char>) -> S {
        self.items@[self.slot(key)]
    }

    /// A registry without derivations.
    pub fn new() -> (r: Self)
        ensures
            r.wf(),
            forall|key: Seq<char>| !r.has(key),
    {
        MetricSyntheses { keys: Vec::new(), items: Vec::new() }
    }

    /// Registers a derivation under `key`, in place of the one that was
    /// there, if any. Other keys keep theirs.
    pub fn insert(&mut self, key: MetricKey, synthesis: S)
        requires
            old(self).wf(),
        ensures
            final(self).wf(),
            final(self).has(key@),
            final(self).entry(key@) == synthesis,
            forall|other: Seq<char>|
                other != key@ ==> final(self).has(other) == old(self).has(other) && (old(self).has(
                    other,
                ) ==> final(self).entry(other) == old(self).entry(other)),
    {
        match position(&self.keys, &key) {
            Some(i) => {
                self.items.set(i, synthesis);
                proof {
                    assert(self.keys@[i as int]@ == key@);
                }
            },
            None => {
                let ghost n = self.keys@.len() as int;
                self.keys.push(key);
                self.items.push(synthesis);
                proof {
                    assert(self.keys@[n]@ == key@);
                    lemma_slot(self.keys@, key@, n);
                    assert forall|other: Seq<char>| other != key@ implies self.has(other) == old(
                        self,
                    ).has(other) && (old(self).has(other) ==> self.entry(other) == old(
                        self,
                    ).entry(other)) by {
                        if old(self).has(other) {
                            let k = old(self).slot(other);
                            assert(self.keys@[k]@ == other);
                            lemma_slot(self.keys@, other, k);
                        }
                        if self.has(other) {
                            let k = self.slot(other);
                            assert(k != n);
                            assert(old(self).keys@[k]@ == other);
                        }
                    }
                }
            },
        }
    }

    /// The derivation registered under `key`, if there is one.
    pub fn get(&self, key: &MetricKey) -> (s: Option<&S>)
        requires
            self.wf(),
        ensures
            s is Some == self.has(key@),
            s matches Some(synthesis) ==> *synthesis == self.entry(key@),
    {
        match position(&self.keys, key) {
            Some(i) => Some(&self.items[i]),
            None => None,
        }
    }
}

/// What a key stands for in a time range as far as the store alone says:
/// the span of its queue where it has one, nothing otherwise.
pub open spec fn raw_span(metrics: MetricQueues, key: Seq<char>, range: TimeRange) -> Option<
    Seq<Sample>,
> {
    if metrics.has(key) {
        Some(metrics.queue(key).span_of(range))
    } else {
        None
    }
}

/// Whether the store alone settles what a key stands for: the key has a
/// queue, or no derivation is registered under it.
pub open spec fn settled<S: MetricSynthesis>(
    metrics: MetricQueues,
    syntheses: MetricSyntheses<S>,
    key: Seq<char>,
) -> bool {
    metrics.has(key) || !syntheses.has(key)
}

/// Resolves a key to its samples in a time range. Samples that were pushed
/// under the key come first: where the key has a queue, the span of that
/// queue is the answer and a derivation of the same name is not asked.
/// Otherwise the derivation registered under the key answers, with whatever
/// it gives. A key with neither gives nothing, which is no error.
pub fn metric_span<S: MetricSynthesis>(
    metrics: &MetricQueues,
    syntheses: &MetricSyntheses<S>,
    key: &MetricKey,
    time_range: &TimeRange,
) -> (r: Option<TimeSeriesSpan>)
    requires
        metrics.wf(),
        syntheses.wf(),
    ensures
        r matches Some(span) ==> span.wf(),
        metrics.has(key@) ==> r is Some && r->0@ == metrics.queue(key@).span_of(*time_range),
        !metrics.has(key@) && !syntheses.has(key@) ==> r is None,
{
    match metrics.get(key) {
        Some(queue) => TimeSeries::span(queue, time_range),
        None => match syntheses.get(key) {
            Some(synthesis) => match synthesis.span(metrics, time_range) {
                Some(span) => Some(TimeSeriesSpan::new(span.samples)),
                None => None,
            },
            None => None,
        },
    }
}

/// Raw samples always win: what a key with a queue stands for is settled by
/// the store, whatever is registered under the same key, and is the span of
/// that queue.
pub proof fn lemma_raw_takes_precedence<S: MetricSynthesis>(
    metrics: MetricQueues,
    syntheses: MetricSyntheses<S>,
    key: Seq<char>,
    range: TimeRange,
)
    requires
        metrics.has(key),
    ensures
        settled(metrics, syntheses, key),
        raw_span(metrics, key, range) == Some(metrics.queue(key).span_of(range)),
{
}

/// The samples of what a key resolved to, if it resolved to anything.
pub open spec fn samples_of(span: Option<TimeSeriesSpan>) -> Option<Seq<Sample>> {
    match span {
        Some(found) => Some(found@),
        None => None,
    }
}

/// The series of a chart after one more key was looked at: a key that
/// resolved to at least one sample adds a series, any other adds nothing.
pub open spec fn plot_added(
    series: Seq<(Seq<char>, Seq<Sample>)>,
    key: Seq<char>,
    span: Option<Seq<Sample>>,
) -> Seq<(Seq<char>, Seq<Sample>)> {
    match span {
        Some(samples) => if samples.len() > 0 {
            series.push((key, samples))
        } else {
            series
        },
        None => series,
    }
}

/// The series of a chart: of the keys asked for, in their order, those that
/// resolved to at least one sample, each with its samples.
pub open spec fn plotted(keys: Seq<Seq<char>>, spans: Seq<Option<Seq<Sample>>>) -> Seq<
    (Seq<char>, Seq<Sample>),
>
    decreases keys.len(),
{
    if keys.len() == 0 || spans.len() != keys.len() {
        Seq::empty()
    } else {
        plot_added(plotted(keys.drop_last(), spans.drop_last()), keys.last(), spans.last())
    }
}

/// Number of samples in all the series together.
pub open spec fn total_points(series: Seq<(Seq<char>, Seq<Sample>)>) -> nat
    decreases series.len(),
{
    if series.len() == 0 {
        0
    } else {
        total_points(series.drop_last()) + series.last().1.len()
    }
}

/// The series thinned for a chart of `budget` points: one group size for
/// all of them, got from their samples together, so that each series keeps
/// its share of the points.
pub open spec fn charted(series: Seq<(Seq<char>, Seq<Sample>)>, budget: nat) -> Seq<
    (Seq<char>, Seq<Sample>),
> {
    Seq::new(
        series.len(),
        |i: int| (series[i].0, decimated(series[i].1, chunk_for(total_points(series), budget))),
    )
}

/// What each key stands for as far as the store alone says.
pub open spec fn raw_spans(metrics: MetricQueues, keys: Seq<Seq<char>>, range: TimeRange) -> Seq<
    Option<Seq<Sample>>,
> {
    Seq::new(keys.len(), |i: int| raw_span(metrics, keys[i], range))
}

/// Whether the store alone settles what each of the keys stands for.
pub open spec fn all_settled<S: MetricSynthesis>(
    metrics: MetricQueues,
    syntheses: MetricSyntheses<S>,
    keys: Seq<Seq<char>>,
) -> bool {
    forall|i: int| 0 <= i < keys.len() ==> settled(metrics, syntheses, #[trigger] keys[i])
}

/// One line of a chart: a name and the coordinates of its points, the
/// values as the bits of 64-bit floats.
#[derive(Debug, Clone)]
pub struct Trace {
    pub name: MetricKey,
    pub x: Vec<Time>,
    pub y: Vec<u64>,
}

impl Trace {
    /// Every point has both coordinates.
    pub open spec fn wf(&self) -> bool {
        self.x@.len() == self.y@.len()
    }

    /// The points as samples.
    pub open spec fn points(&self) -> Seq<Sample> {
        Seq::new(self.x@.len(), |i: int| Sample { time: self.x@[i], value: self.y@[i] })
    }

    /// The line through the given samples.
    pub fn new(name: MetricKey, samples: &[Sample]) -> (t: Trace)
        ensures
            t.wf(),
            t.name == name,
            t.points() == samples@,
    {
        let n = samples.len();
        let mut x: Vec<Time> = Vec::with_capacity(n);
        let mut y: Vec<u64> = Vec::with_capacity(n);
        let mut i: usize = 0;
        while i < n
            invariant
                n == samples@.len(),
                i <= n,
                x@.len() == i,
                y@.len() == i,
                forall|k: int| 0 <= k < i ==> x@[k] == samples@[k].time && y@[k] == samples@[k].value,
            decreases n - i,
        {
            x.push(samples[i].time);
            y.push(samples[i].value);
            i = i + 1;
        }
        let t = Trace { name, x, y };
        proof {
            assert(t.points() =~= samples@);
        }
        t
    }
}

/// Whether the traces are the given series, name for name and point for
/// point.
pub open spec fn traces_show(traces: Seq<Trace>, series: Seq<(Seq<char>, Seq<Sample>)>) -> bool {
    &&& traces.len() == series.len()
    &&& forall|i: int|
        0 <= i < traces.len() ==> {
            &&& (#[trigger] traces[i]).wf()
            &&& traces[i].name@ == series[i].0
            &&& traces[i].points() == series[i].1
        }
}

/// A chart in the making. Keys are looked at one by one, then the series
/// that they gave are thinned one by one, so that whoever drives it may
/// attend to other work in between.
#[derive(Debug, Clone)]
pub struct ChartPlan {
    names: Vec<MetricKey>,
    spans: Vec<Vec<Sample>>,
    total: u128,
}

impl ChartPlan {
    /// The series gathered so far.
    pub closed spec fn series(&self) -> Seq<(Seq<char>, Seq<Sample>)> {
        Seq::new(self.names@.len(), |i: int| (self.names@[i]@, self.spans@[i]@))
    }

    /// Every series has its name, and the samples are counted.
    pub closed spec fn wf(&self) -> bool {
        &&& self.names@.len() == self.spans@.len()
        &&& self.total == total_points(self.series())
        &&& self.total <= self.names@.len() * usize::MAX
        &&& forall|i: int| 0 <= i < self.spans@.len() ==> (#[trigger] self.spans@[i])@.len() > 0
    }

    /// No gathered series is empty.
    pub proof fn lemma_series_filled(&self)
        requires
            self.wf(),
        ensures
            forall|i: int| 0 <= i < self.series().len() ==> (#[trigger] self.series()[i]).1.len() > 0,
    {
        assert forall|i: int| 0 <= i < self.series().len() implies (#[trigger] self.series()[i]).1.len()
            > 0 by {
            assert(self.spans@[i]@.len() > 0);
        }
    }

    /// A chart without series.
    pub fn new() -> (plan: ChartPlan)
        ensures
            plan.wf(),
            plan.series() == Seq::<(Seq<char>, Seq<Sample>)>::empty(),
    {
        let plan = ChartPlan { names: Vec::new(), spans: Vec::new(), total: 0 };
        proof {
            assert(plan.series() =~= Seq::<(Seq<char>, Seq<Sample>)>::empty());
        }
        plan
    }

    /// Number of series gathered so far.
    pub fn len(&self) -> (n: usize)
        requires
            self.wf(),
        ensures
            n == self.series().len(),
    {
        self.names.len()
    }

    /// Takes what a key resolved to: a series where that is at least one
    /// sample, nothing otherwise.
    pub fn add(&mut self, key: &MetricKey, span: Option<TimeSeriesSpan>)
        requires
            old(self).wf(),
        ensures
            final(self).wf(),
            final(self).series() == plot_added(old(self).series(), key@, samples_of(span)),
    {
        let Some(found) = span else {
            return ;
        };
        let count = found.samples.len();
        if count == 0 {
            return ;
        }
        let ghost before = self.series();
        let n = self.names.len();
        proof {
            assert(self.total + count <= (n + 1) * usize::MAX) by (nonlinear_arith)
                requires
                    self.total <= n * usize::MAX,
                    count <= usize::MAX,
            ;
            assert((n + 1) * usize::MAX <= u128::MAX) by (nonlinear_arith)
                requires
                    n <= usize::MAX,
                    usize::MAX <= 0xffff_ffff_ffff_ffff,
            ;
        }
        self.total = self.total + count as u128;
        self.names.push(key.clone());
        self.spans.push(found.samples);
        proof {
            assert(self.series() =~= before.push((key@, found@)));
            assert(self.series().drop_last() =~= before);
            assert forall|i: int| 0 <= i < self.spans@.len() implies (#[trigger] self.spans@[i])@.len()
                > 0 by {
                if i < n {
                    assert(self.spans@[i] == old(self).spans@[i]);
                }
            }
        }
    }

    /// Looks at one key: resolves it, raw samples before derived ones, and
    /// takes what it gave. Where a derivation answered, the series added, if
    /// any, holds what the derivation gave.
    pub fn resolve<S: MetricSynthesis>(
        &mut self,
        metrics: &MetricQueues,
        syntheses: &MetricSyntheses<S>,
        key: &MetricKey,
        time_range: &TimeRange,
    )
        requires
            old(self).wf(),
            metrics.wf(),
            syntheses.wf(),
        ensures
            final(self).wf(),
            settled(*metrics, *syntheses, key@) ==> final(self).series() == plot_added(
                old(self).series(),
                key@,
                raw_span(*metrics, key@, *time_range),
            ),
            exists|span: Option<Seq<Sample>>| #[trigger]
                plot_added(old(self).series(), key@, span) == final(self).series(),
    {
        let span = metric_span(metrics, syntheses, key, time_range);
        let ghost got = samples_of(span);
        self.add(key, span);
        proof {
            assert(plot_added(old(self).series(), key@, got) == self.series());
        }
    }

    /// The group size that thins the gathered series to `max_points` points:
    /// the number of their samples over the budget, rounded up. A size beyond
    /// what the machine can count is given as the largest that it can, which
    /// thins every series alike.
    pub fn chunk_size(&self, max_points: usize) -> (chunk: usize)
        requires
            self.wf(),
            max_points > 0,
        ensures
            chunk as nat == if chunk_for(total_points(self.series()), max_points as nat)
                <= usize::MAX {
                chunk_for(total_points(self.series()), max_points as nat)
            } else {
                usize::MAX as nat
            },
            self.series().len() > 0 ==> chunk > 0,
            forall|i: int|
                0 <= i < self.series().len() ==> decimated(
                    (#[trigger] self.series()[i]).1,
                    chunk as nat,
                ) == decimated(
                    self.series()[i].1,
                    chunk_for(total_points(self.series()), max_points as nat),
                ),
    {
        let n = self.names.len();
        proof {
            let exact = chunk_for(total_points(self.series()), max_points as nat);
            if self.series().len() > 0 {
                assert(self.spans@[n - 1]@.len() > 0);
                assert(total_points(self.series()) > 0);
                assert(exact > 0) by (nonlinear_arith)
                    requires
                        max_points > 0,
                        total_points(self.series()) > 0,
                        exact == (total_points(self.series()) + max_points - 1) / max_points as int,
                ;
            }
            assert forall|i: int| 0 <= i < self.series().len() implies decimated(
                (#[trigger] self.series()[i]).1,
                if exact <= usize::MAX {
                    exact
                } else {
                    usize::MAX as nat
                },
            ) == decimated(self.series()[i].1, exact) by {
                let one = self.series()[i].1;
                assert(one == self.spans@[i]@);
                assert(self.spans@[i].len() == one.len());
                if exact > usize::MAX {
                    lemma_decimated_to_last(one, exact);
                    lemma_decimated_to_last(one, usize::MAX as nat);
                }
            }
        }
        proof {
            assert(n * usize::MAX + usize::MAX <= u128::MAX) by (nonlinear_arith)
                requires
                    n <= usize::MAX,
                    usize::MAX <= 0xffff_ffff_ffff_ffff,
            ;
        }
        let chunk: u128 = (self.total + (max_points as u128 - 1)) / (max_points as u128);
        if chunk > usize::MAX as u128 {
            usize::MAX
        } else {
            chunk as usize
        }
    }

    /// One gathered series as a line of the chart, thinned to the last
    /// sample of each group of `chunk`.
    pub fn trace(&self, i: usize, chunk: usize) -> (t: Trace)
        requires
            self.wf(),
            i < self.series().len(),
            chunk > 0,
        ensures
            t.wf(),
            t.name@ == self.series()[i as int].0,
            t.points() == decimated(self.series()[i as int].1, chunk as nat),
    {
        let reduced = decimate(self.spans[i].as_slice(), chunk);
        Trace::new(self.names[i].clone(), reduced.as_slice())
    }
}

/// Whether `spans` can be what the keys resolved to: there is one for each
/// key, and where the store alone settles what a key stands for, it is what
/// the store says.
pub open spec fn spans_fit<S: MetricSynthesis>(
    metrics: MetricQueues,
    syntheses: MetricSyntheses<S>,
    keys: Seq<Seq<char>>,
    range: TimeRange,
    spans: Seq<Option<Seq<Sample>>>,
) -> bool {
    &&& spans.len() == keys.len()
    &&& forall|i: int|
        0 <= i < keys.len() && settled(metrics, syntheses, keys[i]) ==> #[trigger] spans[i]
            == raw_span(metrics, keys[i], range)
}

/// The lines of a chart for the keys asked for, thinned to a budget of
/// `max_points` points. Each key is resolved, raw samples before derived
/// ones; a key that stands for nothing, or for no sample in the range, is
/// left out without complaint. The series that remain are thinned with one
/// group size, the number of their samples over the budget, rounded up: each
/// keeps the last sample of every group. Where a derivation answers for a
/// key, the key's span is whatever the derivation gave.
pub fn scatter_chart_data<S: MetricSynthesis>(
    metrics: &MetricQueues,
    syntheses: &MetricSyntheses<S>,
    keys: &[MetricKey],
    time_range: &TimeRange,
    max_points: usize,
) -> (traces: Vec<Trace>)
    requires
        metrics.wf(),
        syntheses.wf(),
        max_points > 0,
    ensures
        exists|spans: Seq<Option<Seq<Sample>>>|
            {
                &&& #[trigger] spans_fit(*metrics, *syntheses, names(keys@), *time_range, spans)
                &&& traces_show(
                    traces@,
                    charted(
                        plotted(names(keys@), spans),
                        max_points as nat,
                    ),
                )
            },
        all_settled(*metrics, *syntheses, names(keys@)) ==> traces_show(
            traces@,
            charted(
                plotted(
                    names(keys@),
                    raw_spans(*metrics, names(keys@), *time_range),
                ),
                max_points as nat,
            ),
        ),
{
    let ghost asked = names(keys@);
    let ghost mut spans: Seq<Option<Seq<Sample>>> = Seq::empty();
    let mut plan = ChartPlan::new();
    let n = keys.len();
    let mut i: usize = 0;
    while i < n
        invariant
            metrics.wf(),
            syntheses.wf(),
            plan.wf(),
            n == keys@.len(),
            i <= n,
            asked == names(keys@),
            spans_fit(*metrics, *syntheses, asked.subrange(0, i as int), *time_range, spans),
            plan.series() == plotted(asked.subrange(0, i as int), spans),
        decreases n - i,
    {
        let span = metric_span(metrics, syntheses, &keys[i], time_range);
        let ghost got = samples_of(span);
        plan.add(&keys[i], span);
        proof {
            let before = spans;
            spans = spans.push(got);
            let ks = asked.subrange(0, i as int + 1);
            assert(ks.drop_last() =~= asked.subrange(0, i as int));
            assert(spans.drop_last() =~= before);
            assert(ks.last() == keys@[i as int]@);
            assert forall|k: int|
                0 <= k < ks.len() && settled(*metrics, *syntheses, ks[k]) implies #[trigger] spans[k]
                == raw_span(*metrics, ks[k], *time_range) by {
                if k < i {
                    assert(spans[k] == before[k]);
                    assert(asked.subrange(0, i as int)[k] == ks[k]);
                }
            }
        }
        i = i + 1;
    }
    proof {
        assert(asked.subrange(0, n as int) =~= asked);
        if all_settled(*metrics, *syntheses, asked) {
            assert(spans =~= raw_spans(*metrics, asked, *time_range));
        }
    }
    let chunk = plan.chunk_size(max_points);
    let ghost series = plan.series();
    let ghost shown = charted(series, max_points as nat);
    let count = plan.len();
    let mut traces: Vec<Trace> = Vec::with_capacity(count);
    let mut k: usize = 0;
    while k < count
        invariant
            plan.wf(),
            series == plan.series(),
            shown == charted(series, max_points as nat),
            count == series.len(),
            count > 0 ==> chunk > 0,
            forall|j: int|
                0 <= j < series.len() ==> decimated((#[trigger] series[j]).1, chunk as nat)
                    == decimated(series[j].1, chunk_for(total_points(series), max_points as nat)),
            k <= count,
            traces_show(traces@, shown.subrange(0, k as int)),
        decreases count - k,
    {
        let trace = plan.trace(k, chunk);
        proof {
            assert(decimated(series[k as int].1, chunk as nat) == shown[k as int].1);
            let before = traces@;
            let after = before.push(trace);
            assert forall|j: int| 0 <= j < after.len() implies {
                &&& (#[trigger] after[j]).wf()
                &&& after[j].name@ == shown.subrange(0, k as int + 1)[j].0
                &&& after[j].points() == shown.subrange(0, k as int + 1)[j].1
            } by {
                if j < k {
                    assert(after[j] == before[j]);
                    assert(shown.subrange(0, k as int)[j] == shown[j]);
                }
            }
        }
        traces.push(trace);
        k = k + 1;
    }
    proof {
        assert(shown.subrange(0, count as int) =~= shown);
        assert(traces_show(traces@, charted(plotted(asked, spans), max_points as nat)));
    }
    traces
}

} // verus!
