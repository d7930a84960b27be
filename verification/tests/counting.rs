use nl_foundations::bayesian_classification::event_counter::EventCtr;
use nl_foundations::ratio::{smooth, Ratio};
use nl_foundations::sample::Sample;

#[test]
fn counter_starts_empty() {
    let ctr: EventCtr<usize> = EventCtr::new();
    assert_eq!(ctr.get(&3), None);
    assert_eq!(ctr.total(), 0);
    assert!(ctr.iter().is_empty());
    assert!(ctr.values().is_empty());
}

#[test]
fn counter_counts_occurrences() {
    let mut ctr: EventCtr<&str> = EventCtr::new();
    ctr.inc("a");
    assert_eq!(ctr.get(&"a"), Some(&1));
    ctr.inc("b");
    ctr.inc("a");
    ctr.inc("a");
    assert_eq!(ctr.get(&"a"), Some(&3));
    assert_eq!(ctr.get(&"b"), Some(&1));
    assert_eq!(ctr.get(&"c"), None);
    assert_eq!(ctr.total(), 4);
}

#[test]
fn counter_lists_each_event_once() {
    let mut ctr: EventCtr<usize> = EventCtr::new();
    for k in [5usize, 7, 5, 9, 5, 7] {
        ctr.inc(k);
    }
    let mut entries: Vec<(usize, usize)> = ctr.iter().into_iter().map(|(k, c)| (*k, c)).collect();
    entries.sort();
    assert_eq!(entries, vec![(5, 3), (7, 2), (9, 1)]);
    let mut values = ctr.values();
    values.sort();
    assert_eq!(values, vec![1, 2, 3]);
    assert_eq!(values.iter().sum::<usize>(), ctr.total());
}

#[test]
fn sample_adds_events() {
    let mut sample: Sample<usize> = Sample::new();
    assert_eq!(sample.total, 0);
    sample.add(1);
    sample.add(2);
    sample.add(1);
    assert_eq!(sample.total, 3);
    assert_eq!(sample.counts.get(&1), Some(&2));
    assert_eq!(sample.counts.get(&2), Some(&1));
    assert_eq!(sample.counts.get(&3), None);
    assert_eq!(sample.p(&1), Ratio { numer: 2, denom: 3 });
    assert_eq!(sample.p(&2), Ratio { numer: 1, denom: 3 });
    assert_eq!(sample.p(&3), Ratio { numer: 0, denom: 3 });
}

#[test]
fn sample_from_events() {
    let sample: Sample<(usize, usize)> = Sample::from_iter(vec![(0, 1), (1, 2), (0, 1)]);
    assert_eq!(sample.total, 3);
    assert_eq!(sample.counts.get(&(0, 1)), Some(&2));
    assert_eq!(sample.counts.get(&(1, 2)), Some(&1));
    let mut more = sample;
    more.extend(vec![(1, 2), (2, 3)]);
    assert_eq!(more.total, 5);
    assert_eq!(more.counts.get(&(1, 2)), Some(&2));
    assert_eq!(more.counts.get(&(2, 3)), Some(&1));
    assert_eq!(more.p(&(0, 1)), Ratio { numer: 2, denom: 5 });
}

#[test]
fn smoothing_adds_one() {
    assert_eq!(smooth(2, 3, 10), Ratio { numer: 3, denom: 13 });
    assert_eq!(smooth(0, 0, 7), Ratio { numer: 1, denom: 7 });
    assert_eq!(smooth(0, 4, 9), Ratio { numer: 1, denom: 13 });
    let big = smooth(usize::MAX, usize::MAX, usize::MAX);
    assert_eq!(big.numer, usize::MAX as u128 + 1);
    assert_eq!(big.denom, 2 * (usize::MAX as u128));
}

#[test]
fn smoothed_probability_is_within_bounds() {
    for (v, f, s) in [(0usize, 1usize, 1usize), (0, 0, 1), (3, 4, 10), (9, 5, 5), (1, 1, 1)] {
        let r = smooth(v, f, s);
        assert!(r.numer > 0);
        assert!(r.denom > 0);
        assert!(r.numer <= r.denom);
        let p = r.numer as f64 / r.denom as f64;
        assert!(p > 0.0 && p <= 1.0);
    }
}

#[test]
fn ratio_holds_its_counts() {
    let r = Ratio::new(1, 2);
    assert_eq!(r, Ratio { numer: 1, denom: 2 });
    assert_ne!(r, Ratio { numer: 2, denom: 4 });
}
