//! Counting how often each event occurs.
use std::collections::HashMap;
use std::hash::Hash;
use vstd::multiset::*;
use vstd::prelude::*;
use vstd::std_specs::hash::*;
use vstd::std_specs::iter::IteratorSpec;

verus! {

broadcast use {vstd::std_specs::hash::group_hash_axioms, vstd::multiset::group_multiset_axioms};

/// The events that a table of counts stands for: each key as often as its
/// count says.
pub open spec fn counted<T>(counts: Map<T, usize>) -> Multiset<T> {
    Multiset::from_map(Map::new(|k: T| counts.contains_key(k), |k: T| counts[k] as nat))
}

/// How often `k` is counted: its count in the table, and zero if it is not in it.
pub proof fn lemma_counted_count<T>(counts: Map<T, usize>, k: T)
    requires
        counts.dom().finite(),
    ensures
        counted(counts).count(k) == if counts.contains_key(k) {
            counts[k] as nat
        } else {
            0
        },
{
    let m = Map::new(|k: T| counts.contains_key(k), |k: T| counts[k] as nat);
    assert(m.dom() =~= counts.dom());
}

/// An empty table counts nothing.
pub proof fn lemma_counted_empty<T>()
    ensures
        counted(Map::<T, usize>::empty()) == Multiset::<T>::empty(),
{
    let counts = Map::<T, usize>::empty();
    assert forall|k: T| counted(counts).count(k) == 0 by {
        lemma_counted_count(counts, k);
    }
    assert(counted(counts) =~= Multiset::<T>::empty());
}

/// Raising the count of `k` by one, from zero if it was not in the table,
/// counts one more `k`.
pub proof fn lemma_counted_insert<T>(counts: Map<T, usize>, k: T)
    requires
        counts.dom().finite(),
        counts.contains_key(k) ==> counts[k] < usize::MAX,
    ensures
        counted(
            counts.insert(
                k,
                if counts.contains_key(k) {
                    (counts[k] + 1) as usize
                } else {
                    1usize
                },
            ),
        ) == counted(counts).insert(k),
{
    let after = counts.insert(
        k,
        if counts.contains_key(k) {
            (counts[k] + 1) as usize
        } else {
            1usize
        },
    );
    assert forall|x: T| counted(after).count(x) == counted(counts).insert(k).count(x) by {
        lemma_counted_count(counts, x);
        lemma_counted_count(after, x);
    }
    assert(counted(after) =~= counted(counts).insert(k));
}

/// Whether `counts` holds, for each event of `keys` in turn, how often it
/// occurs in `events`; where `keys` holds each event of `events` once.
pub open spec fn lists_counts<T>(events: Multiset<T>, keys: Seq<T>, counts: Seq<usize>) -> bool {
    &&& keys.len() == counts.len()
    &&& keys.no_duplicates()
    &&& forall|k: T| #![trigger events.count(k)] events.count(k) > 0 ==> keys.contains(k)
    &&& forall|i: int|
        #![trigger keys[i]]
        0 <= i < keys.len() ==> counts[i] == events.count(keys[i]) && counts[i] > 0
}

/// A count of how often each event has occurred. An event that has not
/// occurred has no count.
#[derive(Debug)]
pub struct EventCtr<T: Eq + Hash> {
    m: HashMap<T, usize>,
    total: usize,
}

impl<T: Eq + Hash> View for EventCtr<T> {
    type V = Multiset<T>;

    /// The events counted, each as often as it has occurred.
    closed spec fn view(&self) -> Multiset<T> {
        counted(self.m@)
    }
}

impl<T: Eq + Hash> EventCtr<T> {
    /// The keys obey the model of hash table keys, every count kept is at
    /// least one, and the total kept is the number of occurrences counted.
    pub closed spec fn wf(&self) -> bool {
        &&& obeys_key_model::<T>()
        &&& self.total == counted(self.m@).len()
        &&& forall|k: T| #[trigger] self.m@.contains_key(k) ==> self.m@[k] >= 1
    }

    /// A counter that has counted nothing.
    pub fn new() -> (ctr: EventCtr<T>)
        requires
            obeys_key_model::<T>(),
        ensures
            ctr.wf(),
            ctr@ == Multiset::<T>::empty(),
    {
        proof {
            lemma_counted_empty::<T>();
        }
        EventCtr { m: HashMap::new(), total: 0 }
    }

    /// Counts one more occurrence of `k`.
    pub fn inc(&mut self, k: T)
        requires
            old(self).wf(),
            old(self)@.len() < usize::MAX,
        ensures
            final(self).wf(),
            final(self)@ == old(self)@.insert(k),
            forall|e: T| final(self)@.count(e) >= #[trigger] old(self)@.count(e),
    {
        proof {
            lemma_counted_count(self.m@, k);
            lemma_counted_insert(self.m@, k);
        }
        let count: usize = match self.m.get(&k) {
            Some(c) => *c,
            None => 0,
        };
        self.m.insert(k, count + 1);
        self.total = self.total + 1;
    }

    /// How often `k` has occurred, if it has.
    pub fn get(&self, k: &T) -> (count: Option<&usize>)
        requires
            self.wf(),
        ensures
            match count {
                Some(c) => *c == self@.count(*k) && *c > 0,
                None => self@.count(*k) == 0,
            },
    {
        proof {
            lemma_counted_count(self.m@, *k);
        }
        self.m.get(k)
    }

    /// The events that have occurred, each once and with its count, in no
    /// particular order.
    pub fn iter(&self) -> (entries: Vec<(&T, usize)>)
        requires
            self.wf(),
        ensures
            forall|i: int|
                0 <= i < entries.len() ==> (#[trigger] entries[i]).1 == self@.count(*entries[i].0)
                    && entries[i].1 > 0,
            forall|i: int, j: int|
                0 <= i < j < entries.len() ==> *(#[trigger] entries[i]).0 != *(
                #[trigger] entries[j]).0,
            forall|k: T|
                self@.count(k) > 0 ==> exists|i: int|
                    0 <= i < entries.len() && *(#[trigger] entries[i]).0 == k,
    {
        let mut entries: Vec<(&T, usize)> = Vec::new();
        for entry in it: self.m.iter()
            invariant
                entries.len() == it.index(),
                forall|i: int|
                    0 <= i < entries.len() ==> *(#[trigger] entries[i]).0 == *it.seq()[i].0
                        && entries[i].1 == *it.seq()[i].1,
        {
            entries.push((entry.0, *entry.1));
        }
        proof {
            let all = spec_hash_map_iter(&self.m).remaining();
            assert forall|i: int| 0 <= i < entries.len() implies (#[trigger] entries[i]).1
                == self@.count(*entries[i].0) && entries[i].1 > 0 by {
                assert(self.m@.contains_key(*all[i].0));
                lemma_counted_count(self.m@, *entries[i].0);
            }
            assert forall|i: int, j: int| 0 <= i < j < entries.len() implies *(
            #[trigger] entries[i]).0 != *(#[trigger] entries[j]).0 by {
                assert(self.m@[*all[i].0] == *all[i].1);
                assert(self.m@[*all[j].0] == *all[j].1);
                assert(all[i] != all[j]);
            }
            assert forall|k: T| self@.count(k) > 0 implies exists|i: int|
                0 <= i < entries.len() && *(#[trigger] entries[i]).0 == k by {
                lemma_counted_count(self.m@, k);
                assert(all.contains((&k, &self.m@[k])));
                let i = choose|i: int| 0 <= i < all.len() && all[i] == (&k, &self.m@[k]);
                assert(*entries[i].0 == k);
            }
        }
        entries
    }

    /// The counts of the events that have occurred, one for each event, in no
    /// particular order.
    pub fn values(&self) -> (counts: Vec<usize>)
        requires
            self.wf(),
        ensures
            exists|keys: Seq<T>| #[trigger] lists_counts(self@, keys, counts@),
    {
        let entries = self.iter();
        let mut counts: Vec<usize> = Vec::new();
        let mut i: usize = 0;
        while i < entries.len()
            invariant
                0 <= i <= entries.len(),
                counts.len() == i,
                forall|j: int| 0 <= j < i ==> counts[j] == (#[trigger] entries[j]).1,
            decreases entries.len() - i,
        {
            counts.push(entries[i].1);
            i = i + 1;
        }
        proof {
            let keys = Seq::new(entries.len() as nat, |i: int| *entries[i].0);
            assert forall|k: T| self@.count(k) > 0 implies keys.contains(k) by {
                let i = choose|i: int| 0 <= i < entries.len() && *(#[trigger] entries[i]).0 == k;
                assert(keys[i] == k);
            }
            assert forall|i: int| #![trigger keys[i]] 0 <= i < keys.len() implies counts[i]
                == self@.count(keys[i]) && counts[i] > 0 by {
                assert(counts[i] == entries[i].1);
                assert(entries[i].1 > 0);
            }
            assert forall|i: int, j: int| 0 <= i < keys.len() && 0 <= j < keys.len() && i != j implies keys[i] != keys[j] by {
                if i < j {
                    assert(*entries[i].0 != *entries[j].0);
                } else {
                    assert(*entries[j].0 != *entries[i].0);
                }
            }
            assert(lists_counts(self@, keys, counts@));
        }
        counts
    }

    /// How many occurrences have been counted in all.
    pub fn total(&self) -> (total: usize)
        requires
            self.wf(),
        ensures
            total == self@.len(),
    {
        self.total
    }
}

} // verus!
