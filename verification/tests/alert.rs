use metrics::alert::MetricAlerter;
use metrics::consumer::{MetricConsumer, MetricQueues, TimeSeriesSpan};
use metrics::range::TimeRange;
use metrics::view::{MetricSyntheses, MetricSynthesis};
use metrics::Sample;

fn sample(time: u64, value: f64) -> Sample {
    Sample { time, value: value.to_bits() }
}

fn above(limit: f64) -> impl Fn(Sample) -> bool {
    move |s: Sample| f64::from_bits(s.value) > limit
}

/// Always the same samples, whatever is asked.
struct Fixed(Vec<Sample>);

impl MetricSynthesis for Fixed {
    fn span(&self, _metrics: &MetricQueues, _time_range: &TimeRange) -> Option<TimeSeriesSpan> {
        Some(TimeSeriesSpan::new(self.0.clone()))
    }
}

fn none() -> MetricSyntheses<Fixed> {
    MetricSyntheses::new()
}

#[test]
fn unknown_key_is_no_data_and_keeps_the_cursor() {
    let store = MetricConsumer::new(8);
    let mut alerter = MetricAlerter::new(5, String::from("cpu"), above(0.9));
    assert_eq!(alerter.alert(store.metrics(), &none()), None);
    assert_eq!(alerter.from(), 5);
}

#[test]
fn trips_where_any_sample_trips() {
    let mut store = MetricConsumer::new(8);
    let key = String::from("cpu");
    store.push(&key, &[sample(1, 0.1), sample(2, 0.95), sample(3, 0.2)]);
    let mut alerter = MetricAlerter::new(0, key, above(0.9));
    assert_eq!(alerter.alert(store.metrics(), &none()), Some(true));
    assert_eq!(alerter.from(), 4);
}

#[test]
fn second_look_at_the_same_samples_does_not_trip() {
    let mut store = MetricConsumer::new(8);
    let key = String::from("cpu");
    store.push(&key, &[sample(1, 0.95), sample(2, 0.99)]);
    let mut alerter = MetricAlerter::new(0, key, above(0.9));
    assert_eq!(alerter.alert(store.metrics(), &none()), Some(true));
    assert_eq!(alerter.from(), 3);
    assert_eq!(alerter.alert(store.metrics(), &none()), Some(false));
    assert_eq!(alerter.from(), 3);
    assert_eq!(alerter.alert(store.metrics(), &none()), Some(false));
    assert_eq!(alerter.from(), 3);
}

#[test]
fn only_new_samples_are_tried() {
    let mut store = MetricConsumer::new(8);
    let key = String::from("cpu");
    store.push(&key, &[sample(1, 0.95)]);
    let mut alerter = MetricAlerter::new(0, key.clone(), above(0.9));
    assert_eq!(alerter.alert(store.metrics(), &none()), Some(true));
    store.push(&key, &[sample(2, 0.5)]);
    assert_eq!(alerter.alert(store.metrics(), &none()), Some(false));
    assert_eq!(alerter.from(), 3);
    store.push(&key, &[sample(3, 0.91)]);
    assert_eq!(alerter.alert(store.metrics(), &none()), Some(true));
    assert_eq!(alerter.from(), 4);
}

#[test]
fn samples_before_the_cursor_are_not_tried() {
    let mut store = MetricConsumer::new(8);
    let key = String::from("cpu");
    store.push(&key, &[sample(1, 0.95), sample(2, 0.1), sample(3, 0.2)]);
    let mut alerter = MetricAlerter::new(2, key, above(0.9));
    assert_eq!(alerter.alert(store.metrics(), &none()), Some(false));
    assert_eq!(alerter.from(), 4);
}

#[test]
fn cursor_follows_the_latest_time_not_the_last_sample() {
    let mut store = MetricConsumer::new(8);
    let key = String::from("cpu");
    store.push(&key, &[sample(5, 0.0), sample(9, 0.0), sample(7, 0.0)]);
    let mut alerter = MetricAlerter::new(0, key, above(0.9));
    assert_eq!(alerter.alert(store.metrics(), &none()), Some(false));
    assert_eq!(alerter.from(), 10);
}

#[test]
fn empty_span_keeps_the_cursor() {
    let mut store = MetricConsumer::new(8);
    let key = String::from("cpu");
    store.push(&key, &[sample(1, 0.95)]);
    let mut alerter = MetricAlerter::new(10, key, above(0.9));
    assert_eq!(alerter.alert(store.metrics(), &none()), Some(false));
    assert_eq!(alerter.from(), 10);
}

#[test]
fn cursor_stops_at_the_last_timestamp() {
    let mut store = MetricConsumer::new(8);
    let key = String::from("cpu");
    store.push(&key, &[sample(u64::MAX, 0.95)]);
    let mut alerter = MetricAlerter::new(0, key, above(0.9));
    assert_eq!(alerter.alert(store.metrics(), &none()), Some(true));
    assert_eq!(alerter.from(), u64::MAX);
}

#[test]
fn derived_key_is_watched_where_no_raw_one_is() {
    let store = MetricConsumer::new(8);
    let mut syntheses = MetricSyntheses::new();
    syntheses.insert(String::from("load"), Fixed(vec![sample(3, 2.0), sample(4, 0.0)]));
    let mut alerter = MetricAlerter::new(0, String::from("load"), above(1.0));
    assert_eq!(alerter.alert(store.metrics(), &syntheses), Some(true));
    assert_eq!(alerter.from(), 5);
}

#[test]
fn cursor_never_goes_back() {
    let store = MetricConsumer::new(8);
    let mut syntheses = MetricSyntheses::new();
    syntheses.insert(String::from("old"), Fixed(vec![sample(3, 0.0)]));
    let mut alerter = MetricAlerter::new(100, String::from("old"), above(1.0));
    assert_eq!(alerter.alert(store.metrics(), &syntheses), Some(false));
    assert_eq!(alerter.from(), 100);
}

#[test]
fn judge_tries_every_sample() {
    let mut alerter = MetricAlerter::new(0, String::from("k"), |s: Sample| s.time == 2);
    assert!(!alerter.judge(&[sample(1, 0.0), sample(3, 0.0)]));
    assert_eq!(alerter.from(), 4);
    assert!(alerter.judge(&[sample(2, 0.0)]));
    assert_eq!(alerter.from(), 4);
    assert!(!alerter.judge(&[]));
    assert_eq!(alerter.from(), 4);
}
