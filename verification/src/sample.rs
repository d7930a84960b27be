//! A collection of events with a running total.
use crate::bayesian_classification::event_counter::{
    counted,
    lemma_counted_count,
    lemma_counted_empty,
    lemma_counted_insert,
};
use crate::ratio::Ratio;
use std::collections::HashMap;
use std::hash::Hash;
use vstd::multiset::*;
use vstd::prelude::*;
use vstd::std_specs::hash::*;

verus! {

broadcast use {vstd::std_specs::hash::group_hash_axioms, vstd::multiset::group_multiset_axioms};

/// A collection of events, with a count for each event and the number of all
/// events.
pub struct Sample<T> {
    pub counts: HashMap<T, usize>,
    pub total: usize,
}

impl<T> View for Sample<T> {
    type V = Multiset<T>;

    /// The events collected, each as often as it was added.
    open spec fn view(&self) -> Multiset<T> {
        counted(self.counts@)
    }
}

impl<T: Eq + Hash> Sample<T> {
    /// The keys obey the model of hash table keys, and the total is the
    /// number of events collected.
    pub open spec fn wf(&self) -> bool {
        &&& obeys_key_model::<T>()
        &&& self.total == self@.len()
    }

    /// Creates a new Sample.
    pub fn new() -> (sample: Sample<T>)
        requires
            obeys_key_model::<T>(),
        ensures
            sample.wf(),
            sample@ == Multiset::<T>::empty(),
    {
        proof {
            lemma_counted_empty::<T>();
        }
        Sample { counts: HashMap::new(), total: 0 }
    }

    /// Add an event to a sample.
    pub fn add(&mut self, event: T)
        requires
            old(self).wf(),
            old(self).total < usize::MAX,
        ensures
            final(self).wf(),
            final(self)@ == old(self)@.insert(event),
            final(self).total == old(self).total + 1,
    {
        proof {
            lemma_counted_count(self.counts@, event);
            lemma_counted_insert(self.counts@, event);
        }
        let count: usize = match self.counts.get(&event) {
            Some(c) => *c,
            None => 0,
        };
        self.counts.insert(event, count + 1);
        self.total = self.total + 1;
    }

    /// The probability of an event in a sample: how often it was added, over
    /// the number of all events.
    pub fn p(&self, event: &T) -> (p: Ratio)
        requires
            self.wf(),
        ensures
            p.numer == self@.count(*event),
            p.denom == self@.len(),
            self@.len() > 0 ==> p.is_at_most_one(),
    {
        proof {
            lemma_counted_count(self.counts@, *event);
        }
        let c: usize = match self.counts.get(event) {
            Some(c) => *c,
            None => 0,
        };
        Ratio::new(c, self.total)
    }

    /// Adds the events of `events`, one after the other.
    pub fn extend(&mut self, events: Vec<T>)
        requires
            old(self).wf(),
            old(self).total + events.len() <= usize::MAX,
        ensures
            final(self).wf(),
            final(self)@ == old(self)@.add(events@.to_multiset()),
    {
        let ghost all = events@;
        let ghost before = self@;
        proof {
            all.take(0).to_multiset_ensures();
            assert(before.add(all.take(0).to_multiset()) =~= before);
        }
        for event in it: events.into_iter()
            invariant
                it.seq() == all,
                self.wf(),
                before.len() + all.len() <= usize::MAX,
                self@ == before.add(all.take(it.index() as int).to_multiset()),
        {
            proof {
                let i = it.index() as int;
                all.take(i).to_multiset_ensures();
                assert(all.take(i + 1) =~= all.take(i).push(event));
                assert(before.add(all.take(i).push(event).to_multiset()) =~= before.add(
                    all.take(i).to_multiset(),
                ).insert(event));
            }
            self.add(event);
        }
        proof {
            assert(all.take(all.len() as int) =~= all);
        }
    }

    /// The sample of the events of `events`.
    pub fn from_iter(events: Vec<T>) -> (sample: Sample<T>)
        requires
            obeys_key_model::<T>(),
        ensures
            sample.wf(),
            sample@ == events@.to_multiset(),
    {
        let mut sample = Sample::new();
        let ghost all = events@;
        sample.extend(events);
        proof {
            assert(Multiset::<T>::empty().add(all.to_multiset()) =~= all.to_multiset());
        }
        sample
    }
}

} // verus!
