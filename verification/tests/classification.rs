use nl_foundations::bayesian_classification::event_counter::EventCtr;
use nl_foundations::bayesian_classification::model::{collect, entries, Likelihood, Model};
use nl_foundations::bayesian_classification::training::{CtxCounter, Trainer};
use nl_foundations::ratio::Ratio;
use nl_foundations::word_sequence::{CharClass, WordSequence};
use std::collections::HashMap;

fn sorted<K: Ord + Clone>(pairs: Vec<(K, Ratio)>) -> Vec<(K, Ratio)> {
    let mut pairs = pairs;
    pairs.sort_by(|a, b| a.0.cmp(&b.0));
    pairs
}

#[test]
fn context_counter_records_by_tag() {
    let mut ctr: CtxCounter<&str> = CtxCounter::new();
    ctr.seen(vec!["the", "cat"], true);
    ctr.seen(vec!["the", "dog"], false);
    ctr.seen(vec!["a", "cat"], true);
    assert_eq!(ctr.base_probability(), Ratio { numer: 2, denom: 3 });

    let mut corpus: EventCtr<&str> = EventCtr::new();
    for w in ["the", "cat", "the", "dog", "a", "cat", "bird"] {
        corpus.inc(w);
    }
    let pos = sorted(ctr.pos_context(|w: &&str| w.to_string(), &corpus));
    assert_eq!(
        pos,
        vec![
            ("a".to_string(), Ratio { numer: 2, denom: 8 }),
            ("cat".to_string(), Ratio { numer: 3, denom: 9 }),
            ("the".to_string(), Ratio { numer: 2, denom: 9 }),
        ]
    );
    let neg = sorted(ctr.neg_context(|w: &&str| w.to_string(), &corpus));
    assert_eq!(
        neg,
        vec![
            ("dog".to_string(), Ratio { numer: 2, denom: 8 }),
            ("the".to_string(), Ratio { numer: 2, denom: 9 }),
        ]
    );
}

#[test]
fn evidence_against_an_unrelated_corpus() {
    // A context word that the corpus counter has never seen counts as zero there.
    let mut ctr: CtxCounter<usize> = CtxCounter::new();
    ctr.seen(vec![1, 2], false);
    let mut corpus: EventCtr<usize> = EventCtr::new();
    corpus.inc(9);
    corpus.inc(9);
    corpus.inc(1);
    let neg = sorted(ctr.neg_context(|w: &usize| *w, &corpus));
    assert_eq!(neg, vec![(1, Ratio { numer: 2, denom: 4 }), (2, Ratio { numer: 2, denom: 3 })]);
    assert!(ctr.pos_context(|w: &usize| *w, &corpus).is_empty());
}

fn train_on_stops() -> Trainer<&'static str> {
    let events = ["the", "cat", ".+", "ran", "."];
    let mut trainer: Trainer<&'static str> = Trainer::new(1);
    trainer.train(
        &events,
        |w: &&str| w.starts_with('.'),
        |w: &&'static str| w.trim_end_matches('+'),
        |w: &&str| w.ends_with('+'),
    );
    trainer
}

#[test]
fn training_a_binary_event() {
    let trainer = train_on_stops();
    assert_eq!(trainer.size(), 1);
    let stop = trainer.context_of(&".").expect("two observations of the stop");
    let p = stop.base_probability();
    assert_eq!(p, Ratio { numer: 1, denom: 2 });
    assert_eq!(p.numer as f64 / p.denom as f64, 0.5);
    assert!(trainer.context_of(&"cat").is_none());
    assert!(trainer.context_of(&".+").is_none());

    let seen = trainer.seen();
    assert_eq!(seen.get(&"."), Some(&2));
    assert_eq!(seen.get(&"the"), Some(&1));
    assert_eq!(seen.get(&".+"), None);
    assert_eq!(seen.total(), 5);
    assert_eq!(trainer.p_unseen(), Ratio { numer: 1, denom: 5 });

    let pos = stop.pos_context(|w: &&str| *w, seen);
    assert_eq!(pos, vec![("cat", Ratio { numer: 2, denom: 6 })]);
    let neg = stop.neg_context(|w: &&str| *w, seen);
    assert_eq!(neg, vec![("ran", Ratio { numer: 2, denom: 6 })]);
}

#[test]
fn training_window_is_clipped_at_the_start() {
    let events: Vec<usize> = vec![7, 1, 2, 7, 3, 4, 5, 7];
    let mut trainer: Trainer<usize> = Trainer::new(3);
    trainer.train(&events, |w: &usize| *w == 7, |w: &usize| *w, |_w: &usize| true);
    let seven = trainer.context_of(&7).unwrap();
    assert_eq!(seven.base_probability(), Ratio { numer: 3, denom: 3 });
    // Windows: [], [7, 1, 2], [3, 4, 5].
    let pos = sorted(seven.pos_context(|w: &usize| *w, trainer.seen()));
    let words: Vec<usize> = pos.iter().map(|p| p.0).collect();
    assert_eq!(words, vec![1, 2, 3, 4, 5, 7]);
    assert_eq!(pos[0].1, Ratio { numer: 2, denom: 9 });
    assert_eq!(pos[5].1, Ratio { numer: 2, denom: 11 });
    assert!(seven.neg_context(|w: &usize| *w, trainer.seen()).is_empty());
}

#[test]
fn training_with_the_widest_window() {
    let events: Vec<usize> = vec![1, 2, 0, 3, 0];
    let mut trainer: Trainer<usize> = Trainer::new(usize::MAX);
    trainer.train(&events, |w: &usize| *w == 0, |w: &usize| *w, |_w: &usize| false);
    let zero = trainer.context_of(&0).unwrap();
    assert_eq!(zero.base_probability(), Ratio { numer: 0, denom: 2 });
    // Windows: [1, 2] and [1, 2, 0, 3].
    let neg = sorted(zero.neg_context(|w: &usize| *w, trainer.seen()));
    assert_eq!(
        neg,
        vec![
            (0, Ratio { numer: 2, denom: 7 }),
            (1, Ratio { numer: 3, denom: 6 }),
            (2, Ratio { numer: 3, denom: 6 }),
            (3, Ratio { numer: 2, denom: 6 }),
        ]
    );
}

#[test]
fn training_without_a_window() {
    let events: Vec<usize> = vec![1, 0, 0];
    let mut trainer: Trainer<usize> = Trainer::new(0);
    trainer.train(&events, |w: &usize| *w == 0, |w: &usize| *w, |_w: &usize| true);
    let zero = trainer.context_of(&0).unwrap();
    assert_eq!(zero.base_probability(), Ratio { numer: 2, denom: 2 });
    assert!(zero.pos_context(|w: &usize| *w, trainer.seen()).is_empty());
    let model: Model<usize> = Model::new(&trainer, |w: &usize| *w);
    assert_eq!(model.context(2, &events), &[] as &[usize]);
}

#[test]
fn training_twice_adds_up() {
    let mut trainer: Trainer<usize> = Trainer::new(2);
    trainer.train(&[1, 2, 0], |w: &usize| *w == 0, |w: &usize| *w, |_w: &usize| true);
    trainer.train(&[1, 3, 0], |w: &usize| *w == 0, |w: &usize| *w, |_w: &usize| false);
    let zero = trainer.context_of(&0).unwrap();
    assert_eq!(zero.base_probability(), Ratio { numer: 1, denom: 2 });
    assert_eq!(trainer.seen().total(), 6);
    assert_eq!(trainer.seen().get(&1), Some(&2));
    assert_eq!(trainer.contexts().len(), 1);
}

#[test]
fn model_from_trainer() {
    let trainer = train_on_stops();
    let model: Model<String> = Model::new(&trainer, |w: &&str| w.to_string());
    let stop = ".".to_string();
    let context = vec!["cat".to_string()];
    let terms = model.log_likelihood(&stop, &context).expect("the stop is known");
    assert_eq!(terms.p_raw, Ratio { numer: 1, denom: 2 });
    assert_eq!(terms.pos, vec![Ratio { numer: 2, denom: 6 }]);
    // Nothing is known of "cat" where the event does not occur.
    assert_eq!(terms.neg, vec![Ratio { numer: 1, denom: 5 }]);
    assert!(model.log_likelihood(&"cat".to_string(), &context).is_none());

    let empty = model.log_likelihood(&stop, &[]).unwrap();
    assert!(empty.pos.is_empty());
    assert!(empty.neg.is_empty());
}

#[test]
fn model_window_is_clipped() {
    let trainer = train_on_stops();
    let model: Model<usize> = Model::new(&trainer, |w: &&str| w.len());
    let words: Vec<usize> = vec![10, 11, 12, 13];
    assert_eq!(model.context(0, &words), &[] as &[usize]);
    assert_eq!(model.context(1, &words), &[10]);
    assert_eq!(model.context(2, &words), &[11]);
    assert_eq!(model.context(4, &words), &[13]);

    let mut wide: Trainer<usize> = Trainer::new(3);
    wide.train(&[1, 2, 3], |_w: &usize| false, |w: &usize| *w, |_w: &usize| false);
    let model: Model<usize> = Model::new(&wide, |w: &usize| *w);
    for i in 0..=words.len() {
        assert_eq!(model.context(i, &words).len(), i.min(3));
    }
    assert_eq!(model.context(2, &words), &[10, 11]);
    assert_eq!(model.context(4, &words), &[11, 12, 13]);
}

#[test]
fn model_moves_to_another_text() {
    let trainer = train_on_stops();
    let model: Model<String> = Model::new(&trainer, |w: &&str| w.to_string());

    let ws: WordSequence<&str> = WordSequence::new("a cat . the dog ran .", |s| s, |_| true);
    let unseen = ws.len();
    let local: Model<usize> =
        model.localize(|w: &String| *ws.to_word(&w.as_str()).unwrap_or(&unseen));
    let stop = *ws.to_word(&".").unwrap();
    let cat = *ws.to_word(&"cat").unwrap();
    let ran = *ws.to_word(&"ran").unwrap();
    let dog = *ws.to_word(&"dog").unwrap();
    assert_eq!(ws.class_of_word.get(&stop), Some(&CharClass::Other));

    let after_cat = local.log_likelihood(&stop, &[cat]).unwrap();
    assert_eq!(after_cat.p_raw, Ratio { numer: 1, denom: 2 });
    assert_eq!(after_cat.pos, vec![Ratio { numer: 2, denom: 6 }]);
    assert_eq!(after_cat.neg, vec![Ratio { numer: 1, denom: 5 }]);
    let after_ran = local.log_likelihood(&stop, &[ran]).unwrap();
    assert_eq!(after_ran.pos, vec![Ratio { numer: 1, denom: 5 }]);
    assert_eq!(after_ran.neg, vec![Ratio { numer: 2, denom: 6 }]);
    let after_dog = local.log_likelihood(&stop, &[dog]).unwrap();
    assert_eq!(after_dog.pos, vec![Ratio { numer: 1, denom: 5 }]);
    assert_eq!(after_dog.neg, vec![Ratio { numer: 1, denom: 5 }]);
    assert!(local.log_likelihood(&cat, &[]).is_none());

    // The model it came from is as it was.
    let again = model.log_likelihood(&".".to_string(), &["cat".to_string()]).unwrap();
    assert_eq!(again.pos, vec![Ratio { numer: 2, denom: 6 }]);
}

#[test]
fn collecting_pairs_keeps_the_last() {
    let map = collect(vec![(1usize, 'a'), (2, 'b'), (1, 'c')]);
    assert_eq!(map.len(), 2);
    assert_eq!(map.get(&1), Some(&'c'));
    assert_eq!(map.get(&2), Some(&'b'));
}

#[test]
fn entries_lists_a_map() {
    let mut map: HashMap<usize, usize> = HashMap::new();
    map.insert(1, 10);
    map.insert(2, 20);
    let mut all: Vec<(usize, usize)> = entries(&map).into_iter().map(|(k, v)| (*k, *v)).collect();
    all.sort();
    assert_eq!(all, vec![(1, 10), (2, 20)]);
}

#[test]
fn a_tie_has_equal_terms_on_both_sides() {
    // One observation each way and no context: the event is as likely as not.
    let trainer = train_on_stops();
    let model: Model<&str> = Model::new(&trainer, |w: &&str| *w);
    let tie = model.log_likelihood(&".", &[]).unwrap();
    assert_eq!(tie.p_raw, Ratio { numer: 1, denom: 2 });
    assert!(tie.pos.is_empty());
    assert!(tie.neg.is_empty());
    let p_raw = tie.p_raw.numer as f64 / tie.p_raw.denom as f64;
    let pos = p_raw.log2();
    let neg = (1.0 - p_raw).log2();
    assert_eq!(pos, neg);
    assert!(!(pos > neg));
    // Of a word that was never looked at nothing is known.
    assert!(model.log_likelihood(&"the", &[]).is_none());
}

#[test]
fn is_instance_compares_the_two_likelihoods() {
    let trainer = train_on_stops();
    let model: Model<&str> = Model::new(&trainer, |w: &&str| *w);
    // After "cat": 1/2 * 2/6 for the event, 1/2 * 1/5 against it.
    assert!(model.is_instance(&".", &["cat"]));
    // After "ran": 1/2 * 1/5 for the event, 1/2 * 2/6 against it.
    assert!(!model.is_instance(&".", &["ran"]));
    // After a word never seen: 1/2 * 1/5 either way.
    assert!(!model.is_instance(&".", &["dog"]));
    // With two words of context the evidence multiplies.
    assert!(model.is_instance(&".", &["ran", "cat", "cat"]));
    assert!(!model.is_instance(&".", &["cat", "ran", "ran"]));
    assert!(!model.is_instance(&".", &["cat", "ran"]));
}

#[test]
fn is_instance_is_no_on_a_tie() {
    let trainer = train_on_stops();
    let model: Model<&str> = Model::new(&trainer, |w: &&str| *w);
    assert!(!model.is_instance(&".", &[]));
}

#[test]
fn is_instance_is_no_for_what_is_not_known() {
    let trainer = train_on_stops();
    let model: Model<&str> = Model::new(&trainer, |w: &&str| *w);
    assert!(!model.is_instance(&"cat", &[]));
    assert!(!model.is_instance(&"cat", &["the"]));
}

#[test]
fn is_instance_goes_by_the_base_rate_alone() {
    let events: Vec<usize> = vec![0, 0, 0, 1, 1, 1];
    let tags = [true, true, false, true, false, false];
    let mut likely: Trainer<(usize, bool)> = Trainer::new(0);
    let tagged: Vec<(usize, bool)> = events.iter().cloned().zip(tags.iter().cloned()).collect();
    likely.train(
        &tagged,
        |_e: &(usize, bool)| true,
        |e: &(usize, bool)| (e.0, false),
        |e: &(usize, bool)| e.1,
    );
    let model: Model<usize> = Model::new(&likely, |e: &(usize, bool)| e.0);
    // Two of three for the first word, one of three for the second.
    assert!(model.is_instance(&0, &[]));
    assert!(!model.is_instance(&1, &[]));
}

#[test]
fn likelihoods_of_any_size_are_compared() {
    let big = Ratio { numer: u128::MAX, denom: 1 };
    let less = Ratio { numer: u128::MAX - 1, denom: 1 };
    let half = Ratio { numer: 1, denom: 2 };
    let more = Likelihood { p_raw: half, pos: vec![big, big, big], neg: vec![less, big, big] };
    assert!(more.favours_event());
    let fewer = Likelihood { p_raw: half, pos: vec![less, big, big], neg: vec![big, big, big] };
    assert!(!fewer.favours_event());
    let same = Likelihood { p_raw: half, pos: vec![big, less, big], neg: vec![less, big, big] };
    assert!(!same.favours_event());
    // 3/4 * 1/3 against 1/4 * 1/1: a tie; 3/4 * 2/5 is more, 3/4 * 2/7 is less.
    let p = Ratio { numer: 3, denom: 4 };
    let one = Ratio { numer: 1, denom: 1 };
    let tie = Likelihood { p_raw: p, pos: vec![Ratio { numer: 1, denom: 3 }], neg: vec![one] };
    assert!(!tie.favours_event());
    let above = Likelihood { p_raw: p, pos: vec![Ratio { numer: 2, denom: 5 }], neg: vec![one] };
    assert!(above.favours_event());
    let below = Likelihood { p_raw: p, pos: vec![Ratio { numer: 2, denom: 7 }], neg: vec![one] };
    assert!(!below.favours_event());
    // A raw probability above one decides for the absence.
    let odd = Likelihood { p_raw: Ratio { numer: 3, denom: 2 }, pos: vec![], neg: vec![] };
    assert!(!odd.favours_event());
    // The event that always occurred, and the one that never did.
    let always = Likelihood { p_raw: one, pos: vec![], neg: vec![] };
    assert!(always.favours_event());
    let never = Likelihood { p_raw: Ratio { numer: 0, denom: 1 }, pos: vec![], neg: vec![] };
    assert!(!never.favours_event());
}
