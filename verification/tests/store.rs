use metrics::consumer::{trim_slice, MetricConsumer, MetricQueue, TimeSeries};
use metrics::range::{TimeBound, TimeRange};
use metrics::Sample;

fn sample(time: u64) -> Sample {
    Sample { time, value: (time as f64).to_bits() }
}

fn times(a: &[Sample], b: &[Sample]) -> Vec<u64> {
    a.iter().chain(b).map(|s| s.time).collect()
}

fn all(q: &MetricQueue) -> Vec<u64> {
    let (a, b) = q.span(&TimeRange::all());
    times(a, b)
}

fn queue_of(n: u64, limit: usize) -> MetricQueue {
    let mut q = MetricQueue::new();
    for t in 0..n {
        q.push(sample(t), limit);
    }
    q
}

#[test]
fn new_queue_is_empty() {
    let q = MetricQueue::new();
    assert_eq!(q.len(), 0);
    assert_eq!(all(&q), Vec::<u64>::new());
}

#[test]
fn push_below_limit_keeps_everything() {
    let q = queue_of(5, 8);
    assert_eq!(q.len(), 5);
    assert_eq!(all(&q), vec![0, 1, 2, 3, 4]);
}

#[test]
fn push_past_limit_keeps_the_last_in_push_order() {
    for k in 0..10u64 {
        let limit = 4u64;
        let q = queue_of(limit + k, limit as usize);
        assert_eq!(q.len(), limit as usize);
        let expected: Vec<u64> = (k..limit + k).collect();
        assert_eq!(all(&q), expected);
    }
}

#[test]
fn limit_of_one_keeps_the_newest() {
    let q = queue_of(3, 1);
    assert_eq!(all(&q), vec![2]);
}

#[test]
fn limit_of_zero_still_keeps_the_newest() {
    let q = queue_of(3, 0);
    assert_eq!(all(&q), vec![2]);
}

#[test]
fn limit_grows_and_never_shrinks() {
    let mut q = queue_of(6, 4);
    assert_eq!(all(&q), vec![2, 3, 4, 5]);
    q.push(sample(6), 6);
    q.push(sample(7), 6);
    assert_eq!(all(&q), vec![2, 3, 4, 5, 6, 7]);
    q.push(sample(8), 2);
    assert_eq!(all(&q), vec![3, 4, 5, 6, 7, 8]);
}

#[test]
fn range_queries_on_sixteen_samples() {
    let q = queue_of(16, 1024);
    let (a, b) = q.span(&TimeRange::closed(5, 10));
    assert_eq!(times(a, b), vec![5, 6, 7, 8, 9, 10]);
    let (a, b) = q.span(&TimeRange::all());
    assert_eq!(times(a, b), (0..16).collect::<Vec<u64>>());
    let (a, b) = q.span(&TimeRange::starting_at(16));
    assert_eq!(times(a, b), Vec::<u64>::new());
    let (a, b) = q.span(&TimeRange::before(0));
    assert_eq!(times(a, b), Vec::<u64>::new());
}

#[test]
fn every_kind_of_bound() {
    let q = queue_of(10, 16);
    let get = |start, end| {
        let (a, b) = q.span(&TimeRange::new(start, end));
        times(a, b)
    };
    assert_eq!(get(TimeBound::Excluded(6), TimeBound::Unbounded), vec![7, 8, 9]);
    assert_eq!(get(TimeBound::Included(6), TimeBound::Excluded(8)), vec![6, 7]);
    assert_eq!(get(TimeBound::Unbounded, TimeBound::Included(2)), vec![0, 1, 2]);
    assert_eq!(get(TimeBound::Excluded(2), TimeBound::Excluded(3)), Vec::<u64>::new());
    assert_eq!(get(TimeBound::Included(3), TimeBound::Included(3)), vec![3]);
    assert_eq!(get(TimeBound::Included(8), TimeBound::Included(2)), Vec::<u64>::new());
    let (a, b) = q.span(&TimeRange::half_open(5, 10));
    assert_eq!(times(a, b), vec![5, 6, 7, 8, 9]);
    let (a, b) = q.span(&TimeRange::through(1));
    assert_eq!(times(a, b), vec![0, 1]);
}

#[test]
fn query_does_not_depend_on_where_the_ring_wraps() {
    for shift in 0..24u64 {
        let mut q = MetricQueue::new();
        for t in 0..shift {
            q.push(sample(t), 8);
        }
        for t in 100..108 {
            q.push(sample(t), 8);
        }
        assert_eq!(all(&q), (100..108).collect::<Vec<u64>>());
        let (a, b) = q.span(&TimeRange::closed(102, 105));
        assert_eq!(times(a, b), vec![102, 103, 104, 105]);
        let (a, b) = q.span(&TimeRange::half_open(0, 101));
        assert_eq!(times(a, b), vec![100]);
        let (a, b) = q.span(&TimeRange::starting_at(107));
        assert_eq!(times(a, b), vec![107]);
    }
}

#[test]
fn trim_cuts_from_both_ends_only() {
    let run: Vec<Sample> = [5u64, 1, 5].iter().map(|t| sample(*t)).collect();
    let cut = trim_slice(&run, &TimeRange::closed(5, 5));
    assert_eq!(times(cut, &[]), vec![5, 1, 5]);
    let run: Vec<Sample> = [1u64, 9, 3, 9, 1].iter().map(|t| sample(*t)).collect();
    let cut = trim_slice(&run, &TimeRange::closed(2, 4));
    assert_eq!(times(cut, &[]), vec![9, 3, 9, 1]);
    let run: Vec<Sample> = [1u64, 9, 3, 9, 7].iter().map(|t| sample(*t)).collect();
    let cut = trim_slice(&run, &TimeRange::closed(2, 4));
    assert_eq!(times(cut, &[]), vec![9, 3]);
    let cut = trim_slice(&run, &TimeRange::starting_at(10));
    assert_eq!(times(cut, &[]), Vec::<u64>::new());
}

#[test]
fn series_span_counts_its_samples() {
    let q = queue_of(16, 1024);
    let span = TimeSeries::span(&q, &TimeRange::closed(5, 10)).unwrap();
    assert_eq!(span.count, 6);
    assert_eq!(span.samples.len(), 6);
    assert_eq!(span.samples[0], sample(5));
    assert_eq!(span.samples[5], sample(10));
    let span = TimeSeries::span(&q, &TimeRange::starting_at(99)).unwrap();
    assert_eq!(span.count, 0);
}

#[test]
fn store_makes_queues_on_first_push() {
    let mut store = MetricConsumer::new(4);
    let a = String::from("a");
    let b = String::from("b");
    assert!(store.metrics().get(&a).is_none());
    assert_eq!(store.metrics().len(), 0);
    store.push(&a, &[sample(1), sample(2)]);
    store.push(&b, &[]);
    store.push(&a, &[sample(3)]);
    assert_eq!(store.metrics().len(), 2);
    assert_eq!(store.metrics().key_at(0), "a");
    assert_eq!(store.metrics().key_at(1), "b");
    assert_eq!(all(store.metrics().get(&a).unwrap()), vec![1, 2, 3]);
    assert_eq!(all(store.metrics().get(&b).unwrap()), Vec::<u64>::new());
    assert!(store.metrics().get(&String::from("c")).is_none());
}

#[test]
fn store_evicts_per_key() {
    let mut store = MetricConsumer::new(3);
    let a = String::from("a");
    let b = String::from("b");
    let batch: Vec<Sample> = (0..5).map(sample).collect();
    store.push(&a, &batch);
    store.push(&b, &batch[..2]);
    assert_eq!(all(store.metrics().get(&a).unwrap()), vec![2, 3, 4]);
    assert_eq!(all(store.metrics().get(&b).unwrap()), vec![0, 1]);
}

#[test]
fn unsorted_times_are_kept_in_arrival_order() {
    let mut q = MetricQueue::new();
    for t in [5u64, 3, 9, 1] {
        q.push(sample(t), 8);
    }
    assert_eq!(all(&q), vec![5, 3, 9, 1]);
}

#[test]
fn default_queue_is_a_new_queue() {
    let mut q = MetricQueue::default();
    assert_eq!(q.len(), 0);
    q.push(sample(1), 2);
    q.push(sample(2), 2);
    q.push(sample(3), 2);
    assert_eq!(all(&q), vec![2, 3]);
}

#[test]
fn wrapped_ring_answers_in_two_runs() {
    let q = queue_of(6, 4);
    let (a, b) = q.span(&TimeRange::all());
    assert_eq!(times(a, &[]), vec![2, 3]);
    assert_eq!(times(b, &[]), vec![4, 5]);
    let (a, b) = q.span(&TimeRange::closed(3, 4));
    assert_eq!(times(a, &[]), vec![3]);
    assert_eq!(times(b, &[]), vec![4]);
    let q = queue_of(8, 4);
    let (a, b) = q.span(&TimeRange::all());
    assert_eq!(times(a, &[]), vec![4, 5, 6, 7]);
    assert_eq!(times(b, &[]), Vec::<u64>::new());
}

#[test]
fn unordered_times_are_cut_run_by_run() {
    let mut q = MetricQueue::new();
    for t in [5u64, 1, 5] {
        q.push(sample(t), 3);
    }
    let (a, b) = q.span(&TimeRange::closed(5, 5));
    assert_eq!(times(a, b), vec![5, 1, 5]);
    let mut q = MetricQueue::new();
    for t in [9u64, 9, 5, 1, 5] {
        q.push(sample(t), 3);
    }
    assert_eq!(all(&q), vec![5, 1, 5]);
    let (a, b) = q.span(&TimeRange::closed(5, 5));
    assert_eq!(times(a, &[]), vec![5]);
    assert_eq!(times(b, &[]), vec![5]);
}

#[test]
fn position_finds_a_key_where_it_stands() {
    let keys = vec![String::from("a"), String::from("b"), String::from("c")];
    assert_eq!(metrics::keys::position(&keys, &String::from("a")), Some(0));
    assert_eq!(metrics::keys::position(&keys, &String::from("c")), Some(2));
    assert_eq!(metrics::keys::position(&keys, &String::from("d")), None);
    assert_eq!(metrics::keys::position(&Vec::new(), &String::from("a")), None);
}
