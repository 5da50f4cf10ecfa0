use metrics::consumer::{MetricConsumer, MetricQueues, TimeSeriesSpan};
use metrics::range::TimeRange;
use metrics::view::{
    decimate, metric_span, scatter_chart_data, ChartPlan, MetricSyntheses, MetricSynthesis, Trace,
    MAX_DISPLAY_DATA_POINTS,
};
use metrics::{MetricKey, Sample};

fn sample(time: u64) -> Sample {
    Sample { time, value: (time as f64).to_bits() }
}

fn series(n: u64) -> Vec<Sample> {
    (0..n).map(sample).collect()
}

fn times(samples: &[Sample]) -> Vec<u64> {
    samples.iter().map(|s| s.time).collect()
}

fn store_with(key: &str, n: u64) -> MetricConsumer {
    let mut store = MetricConsumer::new(1 << 20);
    store.push(&String::from(key), &series(n));
    store
}

fn keys(names: &[&str]) -> Vec<MetricKey> {
    names.iter().map(|k| String::from(*k)).collect()
}

/// The samples of another key, each a fixed time later.
struct Shifted {
    source: MetricKey,
    by: u64,
}

impl MetricSynthesis for Shifted {
    fn span(&self, metrics: &MetricQueues, time_range: &TimeRange) -> Option<TimeSeriesSpan> {
        let queue = metrics.get(&self.source)?;
        let (a, b) = queue.span(time_range);
        let samples: Vec<Sample> = a
            .iter()
            .chain(b)
            .map(|s| Sample { time: s.time + self.by, value: s.value })
            .collect();
        Some(TimeSeriesSpan::new(samples))
    }
}

fn no_syntheses() -> MetricSyntheses<Shifted> {
    MetricSyntheses::new()
}

#[test]
fn decimate_keeps_the_last_of_each_group() {
    assert_eq!(times(&decimate(&series(10), 3)), vec![2, 5, 8, 9]);
    assert_eq!(times(&decimate(&series(9), 3)), vec![2, 5, 8]);
    assert_eq!(times(&decimate(&series(5), 1)), vec![0, 1, 2, 3, 4]);
    assert_eq!(times(&decimate(&series(5), 5)), vec![4]);
    assert_eq!(times(&decimate(&series(5), 9)), vec![4]);
    assert_eq!(times(&decimate(&series(0), 4)), Vec::<u64>::new());
    assert_eq!(times(&decimate(&series(3), usize::MAX)), vec![2]);
}

#[test]
fn chart_within_budget_is_unchanged() {
    let store = store_with("a", 16);
    for budget in [16usize, 17, 1024] {
        let traces =
            scatter_chart_data(store.metrics(), &no_syntheses(), &keys(&["a"]), &TimeRange::all(), budget);
        assert_eq!(traces.len(), 1);
        assert_eq!(traces[0].name, "a");
        assert_eq!(traces[0].x, (0..16).collect::<Vec<u64>>());
        let y: Vec<u64> = (0..16).map(|t| (t as f64).to_bits()).collect();
        assert_eq!(traces[0].y, y);
    }
}

#[test]
fn chart_over_budget_is_thinned_and_keeps_the_last_sample() {
    for (n, budget) in [(17u64, 16usize), (100, 7), (1025, 1024), (5000, 1024), (3, 1), (10, 9)] {
        let store = store_with("a", n);
        let traces =
            scatter_chart_data(store.metrics(), &no_syntheses(), &keys(&["a"]), &TimeRange::all(), budget);
        assert_eq!(traces.len(), 1);
        assert!(traces[0].x.len() <= budget);
        assert_eq!(traces[0].x.len(), traces[0].y.len());
        assert_eq!(*traces[0].x.last().unwrap(), n - 1);
        assert_eq!(*traces[0].y.last().unwrap(), ((n - 1) as f64).to_bits());
    }
}

#[test]
fn chart_exact_points() {
    let store = store_with("a", 10);
    let traces = scatter_chart_data(store.metrics(), &no_syntheses(), &keys(&["a"]), &TimeRange::all(), 4);
    assert_eq!(traces[0].x, vec![2, 5, 8, 9]);
    let traces =
        scatter_chart_data(store.metrics(), &no_syntheses(), &keys(&["a"]), &TimeRange::closed(2, 7), 4);
    assert_eq!(traces[0].x, vec![3, 5, 7]);
}

#[test]
fn series_share_one_group_size() {
    let mut store = MetricConsumer::new(1 << 20);
    store.push(&String::from("long"), &series(30));
    store.push(&String::from("short"), &series(10));
    let traces = scatter_chart_data(
        store.metrics(),
        &no_syntheses(),
        &keys(&["long", "short"]),
        &TimeRange::all(),
        10,
    );
    assert_eq!(traces.len(), 2);
    assert_eq!(traces[0].name, "long");
    assert_eq!(traces[0].x, vec![3, 7, 11, 15, 19, 23, 27, 29]);
    assert_eq!(traces[1].name, "short");
    assert_eq!(traces[1].x, vec![3, 7, 9]);
}

#[test]
fn unknown_and_empty_keys_are_left_out() {
    let mut store = store_with("a", 4);
    store.push(&String::from("empty"), &[]);
    let traces = scatter_chart_data(
        store.metrics(),
        &no_syntheses(),
        &keys(&["nope", "empty", "a", "a"]),
        &TimeRange::all(),
        MAX_DISPLAY_DATA_POINTS,
    );
    assert_eq!(traces.len(), 2);
    assert_eq!(traces[0].name, "a");
    assert_eq!(traces[1].name, "a");
    let traces = scatter_chart_data(
        store.metrics(),
        &no_syntheses(),
        &keys(&["a"]),
        &TimeRange::starting_at(100),
        MAX_DISPLAY_DATA_POINTS,
    );
    assert_eq!(traces.len(), 0);
}

#[test]
fn chart_of_nothing_is_empty() {
    let store = MetricConsumer::new(4);
    let traces = scatter_chart_data(store.metrics(), &no_syntheses(), &keys(&[]), &TimeRange::all(), 1024);
    assert_eq!(traces.len(), 0);
    let traces =
        scatter_chart_data(store.metrics(), &no_syntheses(), &keys(&["a", "b"]), &TimeRange::all(), 1);
    assert_eq!(traces.len(), 0);
}

#[test]
fn end_to_end_chart_request() {
    let store = store_with("a", 16);
    let traces = scatter_chart_data(
        store.metrics(),
        &no_syntheses(),
        &keys(&["a"]),
        &TimeRange::closed(0, 15),
        MAX_DISPLAY_DATA_POINTS,
    );
    assert_eq!(traces[0].x, (0..16).collect::<Vec<u64>>());
    let traces = scatter_chart_data(
        store.metrics(),
        &no_syntheses(),
        &keys(&["a"]),
        &TimeRange::half_open(5, 10),
        MAX_DISPLAY_DATA_POINTS,
    );
    assert_eq!(traces[0].x, vec![5, 6, 7, 8, 9]);
    let y: Vec<f64> = traces[0].y.iter().map(|bits| f64::from_bits(*bits)).collect();
    assert_eq!(y, vec![5.0, 6.0, 7.0, 8.0, 9.0]);
}

#[test]
fn unknown_key_resolves_to_nothing() {
    let store = store_with("a", 4);
    let got = metric_span(store.metrics(), &no_syntheses(), &String::from("b"), &TimeRange::all());
    assert!(got.is_none());
}

#[test]
fn raw_key_present_but_empty_in_range_is_still_a_series() {
    let store = store_with("a", 4);
    let got = metric_span(store.metrics(), &no_syntheses(), &String::from("a"), &TimeRange::before(0));
    let span = got.unwrap();
    assert_eq!(span.count, 0);
    assert_eq!(span.samples.len(), 0);
}

#[test]
fn synthesis_answers_where_no_raw_queue_is() {
    let store = store_with("a", 4);
    let mut syntheses = MetricSyntheses::new();
    syntheses.insert(String::from("later"), Shifted { source: String::from("a"), by: 100 });
    let span =
        metric_span(store.metrics(), &syntheses, &String::from("later"), &TimeRange::closed(1, 2)).unwrap();
    assert_eq!(times(&span.samples), vec![101, 102]);
    assert_eq!(span.count, 2);
    syntheses.insert(String::from("lost"), Shifted { source: String::from("nope"), by: 1 });
    assert!(metric_span(store.metrics(), &syntheses, &String::from("lost"), &TimeRange::all()).is_none());
}

#[test]
fn raw_data_takes_precedence_over_synthesis() {
    let mut store = store_with("a", 4);
    store.push(&String::from("b"), &[sample(50)]);
    let mut syntheses = MetricSyntheses::new();
    syntheses.insert(String::from("a"), Shifted { source: String::from("b"), by: 1000 });
    let span = metric_span(store.metrics(), &syntheses, &String::from("a"), &TimeRange::all()).unwrap();
    assert_eq!(times(&span.samples), vec![0, 1, 2, 3]);
    assert!(syntheses.get(&String::from("a")).is_some());
}

#[test]
fn later_registration_replaces_the_earlier() {
    let store = store_with("a", 2);
    let mut syntheses = MetricSyntheses::new();
    syntheses.insert(String::from("s"), Shifted { source: String::from("a"), by: 1 });
    syntheses.insert(String::from("t"), Shifted { source: String::from("a"), by: 5 });
    syntheses.insert(String::from("s"), Shifted { source: String::from("a"), by: 10 });
    let span = metric_span(store.metrics(), &syntheses, &String::from("s"), &TimeRange::all()).unwrap();
    assert_eq!(times(&span.samples), vec![10, 11]);
    let span = metric_span(store.metrics(), &syntheses, &String::from("t"), &TimeRange::all()).unwrap();
    assert_eq!(times(&span.samples), vec![5, 6]);
}

#[test]
fn chart_in_steps_is_the_chart_at_once() {
    let mut store = MetricConsumer::new(1 << 20);
    store.push(&String::from("a"), &series(25));
    store.push(&String::from("b"), &series(7));
    let asked = keys(&["a", "zzz", "b"]);
    let range = TimeRange::all();
    let syntheses = no_syntheses();
    let mut plan = ChartPlan::new();
    for key in &asked {
        plan.resolve(store.metrics(), &syntheses, key, &range);
    }
    assert_eq!(plan.len(), 2);
    let chunk = plan.chunk_size(8);
    assert_eq!(chunk, 4);
    let stepwise: Vec<Trace> = (0..plan.len()).map(|i| plan.trace(i, chunk)).collect();
    let at_once = scatter_chart_data(store.metrics(), &syntheses, &asked, &range, 8);
    assert_eq!(stepwise.len(), at_once.len());
    for (s, o) in stepwise.iter().zip(&at_once) {
        assert_eq!(s.name, o.name);
        assert_eq!(s.x, o.x);
        assert_eq!(s.y, o.y);
    }
    assert_eq!(at_once[0].x, vec![3, 7, 11, 15, 19, 23, 24]);
    assert_eq!(at_once[1].x, vec![3, 6]);
}

#[test]
fn plan_without_series_has_no_group_size() {
    let plan = ChartPlan::new();
    assert_eq!(plan.chunk_size(1024), 0);
    let mut plan = ChartPlan::new();
    plan.add(&String::from("a"), None);
    plan.add(&String::from("b"), Some(TimeSeriesSpan::new(Vec::new())));
    assert_eq!(plan.len(), 0);
    plan.add(&String::from("c"), Some(TimeSeriesSpan::new(series(3))));
    assert_eq!(plan.len(), 1);
    assert_eq!(plan.chunk_size(2), 2);
}
