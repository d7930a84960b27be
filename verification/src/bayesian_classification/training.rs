//! Collecting, for a binary event, how often it occurred and which words
//! stood before it.
use crate::bayesian_classification::event_counter::EventCtr;
use crate::ratio::{add_one_estimate, smooth, Ratio};
use std::collections::HashMap;
use std::hash::Hash;
use vstd::multiset::*;
use vstd::prelude::*;
use vstd::std_specs::hash::*;

verus! {

broadcast use {vstd::std_specs::hash::group_hash_axioms, vstd::multiset::group_multiset_axioms};

/// What has been observed of a binary event: how often it was looked at, how
/// often it had occurred then, and the words of the contexts, kept apart by
/// whether it had occurred.
pub struct Observations<T> {
    pub total: nat,
    pub positive: nat,
    pub pos_context: Multiset<T>,
    pub neg_context: Multiset<T>,
}

impl<T> Observations<T> {
    /// Nothing observed.
    pub open spec fn empty() -> Observations<T> {
        Observations {
            total: 0,
            positive: 0,
            pos_context: Multiset::empty(),
            neg_context: Multiset::empty(),
        }
    }

    /// One more observation: the event had occurred or not, and `context`
    /// holds the words before it, which go to the side that `occurred` names.
    pub open spec fn record(self, context: Seq<T>, occurred: bool) -> Observations<T> {
        if occurred {
            Observations {
                total: self.total + 1,
                positive: self.positive + 1,
                pos_context: self.pos_context.add(context.to_multiset()),
                neg_context: self.neg_context,
            }
        } else {
            Observations {
                total: self.total + 1,
                positive: self.positive,
                pos_context: self.pos_context,
                neg_context: self.neg_context.add(context.to_multiset()),
            }
        }
    }

    /// The number of context words recorded, on both sides.
    pub open spec fn context_words(self) -> nat {
        self.pos_context.len() + self.neg_context.len()
    }
}

/// Collection of statistics about a binary event.
#[derive(Debug)]
pub struct CtxCounter<T: Eq + Hash> {
    positive: usize,
    total: usize,
    pos_context: EventCtr<T>,
    neg_context: EventCtr<T>,
}

impl<T: Eq + Hash> View for CtxCounter<T> {
    type V = Observations<T>;

    closed spec fn view(&self) -> Observations<T> {
        Observations {
            total: self.total as nat,
            positive: self.positive as nat,
            pos_context: self.pos_context@,
            neg_context: self.neg_context@,
        }
    }
}

/// Whether `out` lists the evidence that `context` gives against `corpus`:
/// for each word of `words` in turn, what `f` makes of the word, and the
/// add-one estimate from its count in `context`, its count in `corpus` and
/// the size of `corpus`; where `words` holds each word of `context` once.
pub open spec fn evidence_of<T, K, ToK: Fn(&T) -> K>(
    context: Multiset<T>,
    corpus: Multiset<T>,
    f: ToK,
    words: Seq<T>,
    out: Seq<(K, Ratio)>,
) -> bool {
    &&& words.len() == out.len()
    &&& words.no_duplicates()
    &&& forall|w: T| #![trigger context.count(w)] context.count(w) > 0 ==> words.contains(w)
    &&& forall|i: int|
        #![trigger words[i]]
        0 <= i < words.len() ==> context.count(words[i]) > 0 && call_ensures(
            f,
            (&words[i],),
            out[i].0,
        ) && out[i].1 == add_one_estimate(
            context.count(words[i]),
            corpus.count(words[i]),
            corpus.len(),
        )
}

/// Whether `out` lists the evidence that `context` gives against `corpus`,
/// for the words of `context` in some order.
pub open spec fn is_evidence<T, K, ToK: Fn(&T) -> K>(
    context: Multiset<T>,
    corpus: Multiset<T>,
    f: ToK,
    out: Seq<(K, Ratio)>,
) -> bool {
    exists|words: Seq<T>| #[trigger] evidence_of(context, corpus, f, words, out)
}

/// Adds the events of `events` to `ctr`.
fn count_all<T: Eq + Hash>(ctr: &mut EventCtr<T>, events: Vec<T>)
    requires
        old(ctr).wf(),
        old(ctr)@.len() + events.len() <= usize::MAX,
    ensures
        final(ctr).wf(),
        final(ctr)@ == old(ctr)@.add(events@.to_multiset()),
{
    let ghost all = events@;
    let ghost before = ctr@;
    proof {
        all.take(0).to_multiset_ensures();
        assert(before.add(all.take(0).to_multiset()) =~= before);
    }
    for event in it: events.into_iter()
        invariant
            it.seq() == all,
            ctr.wf(),
            before.len() + all.len() <= usize::MAX,
            ctr@ == before.add(all.take(it.index() as int).to_multiset()),
    {
        proof {
            let i = it.index() as int;
            all.take(i).to_multiset_ensures();
            assert(all.take(i + 1) =~= all.take(i).push(event));
            assert(before.add(all.take(i).push(event).to_multiset()) =~= before.add(
                all.take(i).to_multiset(),
            ).insert(event));
        }
        ctr.inc(event);
    }
    proof {
        assert(all.take(all.len() as int) =~= all);
    }
}

impl<T: Eq + Hash> CtxCounter<T> {
    /// The two counters of context words are well formed, and the event has
    /// occurred at most as often as it was looked at.
    pub closed spec fn wf(&self) -> bool {
        &&& self.pos_context.wf()
        &&& self.neg_context.wf()
        &&& self.positive <= self.total
    }

    /// The event has occurred at most as often as it was looked at, and the
    /// counts fit a machine word.
    pub proof fn lemma_positive_at_most_total(&self)
        requires
            self.wf(),
        ensures
            self@.positive <= self@.total <= usize::MAX,
    {
    }

    /// A counter that has observed nothing.
    pub fn new() -> (ctr: CtxCounter<T>)
        requires
            obeys_key_model::<T>(),
        ensures
            ctr.wf(),
            ctr@ == Observations::<T>::empty(),
    {
        CtxCounter { total: 0, positive: 0, pos_context: EventCtr::new(), neg_context: EventCtr::new() }
    }

    /// Record a boolean event and its context.
    pub fn seen(&mut self, context: Vec<T>, pos: bool)
        requires
            old(self).wf(),
            old(self)@.total < usize::MAX,
            pos ==> old(self)@.pos_context.len() + context.len() <= usize::MAX,
            !pos ==> old(self)@.neg_context.len() + context.len() <= usize::MAX,
        ensures
            final(self).wf(),
            final(self)@ == old(self)@.record(context@, pos),
    {
        self.total = self.total + 1;
        if pos {
            self.positive = self.positive + 1;
            count_all(&mut self.pos_context, context);
        } else {
            count_all(&mut self.neg_context, context);
        }
    }

    /// The evidence of the words before the event where it had occurred: for
    /// each such word, what `f` makes of it and its add-one estimate against
    /// the counts `event_counts` of all words.
    pub fn pos_context<K, ToK>(&self, f: ToK, event_counts: &EventCtr<T>) -> (evidence: Vec<
        (K, Ratio),
    >) where ToK: Fn(&T) -> K
        requires
            self.wf(),
            event_counts.wf(),
            forall|w: &T| call_requires(f, (w,)),
        ensures
            is_evidence(self@.pos_context, event_counts@, f, evidence@),
    {
        self.pos_evidence(&f, event_counts)
    }

    /// As `pos_context`, for a function that is only lent.
    pub(crate) fn pos_evidence<K, ToK>(&self, f: &ToK, event_counts: &EventCtr<T>) -> (evidence:
        Vec<(K, Ratio)>) where ToK: Fn(&T) -> K
        requires
            self.wf(),
            event_counts.wf(),
            forall|w: &T| call_requires(*f, (w,)),
        ensures
            is_evidence(self@.pos_context, event_counts@, *f, evidence@),
    {
        Self::ctx_probability(&self.pos_context, event_counts, f)
    }

    /// The evidence of the words before the event where it had not occurred:
    /// for each such word, what `f` makes of it and its add-one estimate
    /// against the counts `event_counts` of all words.
    pub fn neg_context<K, ToK>(&self, f: ToK, event_counts: &EventCtr<T>) -> (evidence: Vec<
        (K, Ratio),
    >) where ToK: Fn(&T) -> K
        requires
            self.wf(),
            event_counts.wf(),
            forall|w: &T| call_requires(f, (w,)),
        ensures
            is_evidence(self@.neg_context, event_counts@, f, evidence@),
    {
        self.neg_evidence(&f, event_counts)
    }

    /// As `neg_context`, for a function that is only lent.
    pub(crate) fn neg_evidence<K, ToK>(&self, f: &ToK, event_counts: &EventCtr<T>) -> (evidence:
        Vec<(K, Ratio)>) where ToK: Fn(&T) -> K
        requires
            self.wf(),
            event_counts.wf(),
            forall|w: &T| call_requires(*f, (w,)),
        ensures
            is_evidence(self@.neg_context, event_counts@, *f, evidence@),
    {
        Self::ctx_probability(&self.neg_context, event_counts, f)
    }

    /// Evidence: the add-one (Laplace) estimate of the probability of each
    /// context word given an event.
    ///
    /// The maximum-likelihood estimate would be the number of times a word is
    /// used in this context divided by the number of times it is used
    /// overall. Smoothing adds one to the numerator and the total number of
    /// words to the denominator.
    fn ctx_probability<K, ToK>(context: &EventCtr<T>, word_counts: &EventCtr<T>, f: &ToK) -> (evidence:
        Vec<(K, Ratio)>) where ToK: Fn(&T) -> K
        requires
            context.wf(),
            word_counts.wf(),
            forall|w: &T| call_requires(*f, (w,)),
        ensures
            is_evidence(context@, word_counts@, *f, evidence@),
    {
        let sum = word_counts.total();
        let entries = context.iter();
        let mut evidence: Vec<(K, Ratio)> = Vec::new();
        let mut i: usize = 0;
        while i < entries.len()
            invariant
                0 <= i <= entries.len(),
                evidence.len() == i,
                context.wf(),
                word_counts.wf(),
                sum == word_counts@.len(),
                forall|w: &T| call_requires(*f, (w,)),
                forall|j: int|
                    0 <= j < entries.len() ==> (#[trigger] entries[j]).1 == context@.count(
                        *entries[j].0,
                    ),
                forall|j: int|
                    0 <= j < i ==> call_ensures(*f, ((#[trigger] entries[j]).0,), evidence[j].0)
                        && evidence[j].1 == add_one_estimate(
                        context@.count(*entries[j].0),
                        word_counts@.count(*entries[j].0),
                        word_counts@.len(),
                    ),
            decreases entries.len() - i,
        {
            let word = entries[i].0;
            let occurrences: usize = match word_counts.get(word) {
                Some(c) => *c,
                None => 0,
            };
            let key = f(word);
            evidence.push((key, smooth(entries[i].1, occurrences, sum)));
            i = i + 1;
        }
        proof {
            let words = Seq::new(entries.len() as nat, |j: int| *entries[j].0);
            assert forall|w: T| context@.count(w) > 0 implies words.contains(w) by {
                let j = choose|j: int| 0 <= j < entries.len() && *(#[trigger] entries[j]).0 == w;
                assert(words[j] == w);
            }
            assert forall|a: int, b: int|
                0 <= a < words.len() && 0 <= b < words.len() && a != b implies words[a]
                != words[b] by {
                if a < b {
                    assert(*entries[a].0 != *entries[b].0);
                } else {
                    assert(*entries[b].0 != *entries[a].0);
                }
            }
            assert forall|j: int|
                #![trigger words[j]]
                0 <= j < words.len() implies context@.count(words[j]) > 0 && call_ensures(
                *f,
                (&words[j],),
                evidence@[j].0,
            ) && evidence@[j].1 == add_one_estimate(
                context@.count(words[j]),
                word_counts@.count(words[j]),
                word_counts@.len(),
            ) by {
                assert(entries[j].1 > 0);
                assert(call_ensures(*f, (entries[j].0,), evidence[j].0));
            }
            assert(evidence_of(context@, word_counts@, *f, words, evidence@));
        }
        evidence
    }

    /// Calculate the raw probability of an event: how often it had occurred,
    /// over how often it was looked at.
    pub fn base_probability(&self) -> (p: Ratio)
        requires
            self.wf(),
            self@.total > 0,
        ensures
            p.numer == self@.positive,
            p.denom == self@.total,
            p.is_at_most_one(),
    {
        Ratio::new(self.positive, self.total)
    }
}

/// What a trainer has collected: the width of the window, the words seen,
/// and for each word that was looked at as a possible event, what was
/// observed of it.
#[verifier::reject_recursive_types(T)]
pub struct Training<T> {
    pub size: nat,
    pub seen: Multiset<T>,
    pub contexts: Map<T, Observations<T>>,
}

impl<T> Training<T> {
    /// Nothing collected, for windows of `size` words.
    pub open spec fn empty(size: nat) -> Training<T> {
        Training { size, seen: Multiset::empty(), contexts: Map::empty() }
    }

    /// The window before the place `i` of `words`: the `size` words before
    /// it, or as many as there are.
    pub open spec fn window(self, words: Seq<T>, i: int) -> Seq<T> {
        words.subrange(
            if i > self.size {
                i - self.size
            } else {
                0
            },
            i,
        )
    }

    /// What is collected after the place `i` of `words` has been looked at:
    /// the word there has been seen once more; and if it is an example, the
    /// window before it has been recorded with the word, on the side that
    /// `occurred` names.
    pub open spec fn observe(self, words: Seq<T>, i: int, example: bool, occurred: bool) -> Training<
        T,
    > {
        let word = words[i];
        let seen = self.seen.insert(word);
        if example {
            let before = if self.contexts.contains_key(word) {
                self.contexts[word]
            } else {
                Observations::empty()
            };
            Training {
                size: self.size,
                seen,
                contexts: self.contexts.insert(word, before.record(self.window(words, i), occurred)),
            }
        } else {
            Training { size: self.size, seen, contexts: self.contexts }
        }
    }

    /// What is collected after the first `n` places of `words` have been
    /// looked at, one after the other.
    pub open spec fn trained(
        self,
        words: Seq<T>,
        examples: Seq<bool>,
        occurred: Seq<bool>,
        n: int,
    ) -> Training<T>
        decreases n,
    {
        if n <= 0 {
            self
        } else {
            self.trained(words, examples, occurred, n - 1).observe(
                words,
                n - 1,
                examples[n - 1],
                occurred[n - 1],
            )
        }
    }
}

/// What is collected from the first `n` places depends on what stands at
/// those places alone.
pub proof fn lemma_trained_prefix<T>(
    start: Training<T>,
    words: Seq<T>,
    examples: Seq<bool>,
    occurred: Seq<bool>,
    more_words: Seq<T>,
    more_examples: Seq<bool>,
    more_occurred: Seq<bool>,
    n: int,
)
    requires
        0 <= n <= words.len(),
        n <= examples.len(),
        n <= occurred.len(),
        n <= more_words.len(),
        n <= more_examples.len(),
        n <= more_occurred.len(),
        more_words.take(n) == words.take(n),
        more_examples.take(n) == examples.take(n),
        more_occurred.take(n) == occurred.take(n),
    ensures
        start.trained(more_words, more_examples, more_occurred, n) == start.trained(
            words,
            examples,
            occurred,
            n,
        ),
    decreases n,
{
    if n > 0 {
        assert(more_words.take(n - 1) =~= more_words.take(n).take(n - 1));
        assert(words.take(n - 1) =~= words.take(n).take(n - 1));
        assert(more_examples.take(n - 1) =~= more_examples.take(n).take(n - 1));
        assert(examples.take(n - 1) =~= examples.take(n).take(n - 1));
        assert(more_occurred.take(n - 1) =~= more_occurred.take(n).take(n - 1));
        assert(occurred.take(n - 1) =~= occurred.take(n).take(n - 1));
        lemma_trained_prefix(
            start,
            words,
            examples,
            occurred,
            more_words,
            more_examples,
            more_occurred,
            n - 1,
        );
        assert(more_words.take(n)[n - 1] == more_words[n - 1]);
        assert(words.take(n)[n - 1] == words[n - 1]);
        assert(more_examples.take(n)[n - 1] == more_examples[n - 1]);
        assert(examples.take(n)[n - 1] == examples[n - 1]);
        assert(more_occurred.take(n)[n - 1] == more_occurred[n - 1]);
        assert(occurred.take(n)[n - 1] == occurred[n - 1]);
        let before = start.trained(words, examples, occurred, n - 1);
        assert(before.window(more_words, n - 1) =~= before.window(words, n - 1)) by {
            let from = if n - 1 > before.size {
                n - 1 - before.size
            } else {
                0
            };
            assert forall|k: int| from <= k < n - 1 implies more_words[k] == words[k] by {
                assert(more_words.take(n)[k] == more_words[k]);
                assert(words.take(n)[k] == words[k]);
            }
        }
    }
}

/// Whether `f` can be asked about everything and gives one answer for one
/// question.
pub open spec fn is_function<A, R, F: Fn(&A) -> R>(f: F) -> bool {
    &&& forall|a: &A| call_requires(f, (a,))
    &&& forall|a: &A, r1: R, r2: R|
        #[trigger] call_ensures(f, (a,), r1) && #[trigger] call_ensures(f, (a,), r2) ==> r1 == r2
}

/// Whether `words`, `examples` and `occurred` hold what the three functions
/// make of `events`: for each event in turn the word that `untag` makes of
/// it, whether `is_example` holds of it and, where it does, whether `is_tag`
/// holds of it.
pub open spec fn reads<T, IsExample, Untag, IsTag>(
    events: Seq<T>,
    is_example: IsExample,
    untag: Untag,
    is_tag: IsTag,
    words: Seq<T>,
    examples: Seq<bool>,
    occurred: Seq<bool>,
) -> bool where IsExample: Fn(&T) -> bool, Untag: Fn(&T) -> T, IsTag: Fn(&T) -> bool {
    &&& words.len() == events.len()
    &&& examples.len() == events.len()
    &&& occurred.len() == events.len()
    &&& forall|i: int|
        #![trigger events[i]]
        0 <= i < events.len() ==> {
            &&& call_ensures(untag, (&events[i],), words[i])
            &&& call_ensures(is_example, (&events[i],), examples[i])
            &&& examples[i] ==> call_ensures(is_tag, (&events[i],), occurred[i])
        }
}

/// The longest window that can have been recorded when `seen` words were
/// seen: the width of the window, or the number of words seen if that is
/// less.
pub open spec fn longest_window(size: nat, seen: nat) -> nat {
    if size < seen {
        size
    } else {
        seen
    }
}

/// A product grows with both factors.
proof fn lemma_product_grows(a: nat, b: nat, c: nat, d: nat)
    requires
        a <= c,
        b <= d,
    ensures
        a * b <= c * d,
{
    assert(a * b <= c * d) by (nonlinear_arith)
        requires
            a <= c,
            b <= d,
    ;
}

/// Maintain a mapping between events and CtxCounters.
pub type ContextMap<T> = HashMap<T, CtxCounter<T>>;

/// Collects, from sequences of words, the statistics of one binary event.
#[derive(Debug)]
pub struct Trainer<T: Eq + Hash> {
    size: usize,
    seen: EventCtr<T>,
    contexts: ContextMap<T>,
}

impl<T: Eq + Hash> View for Trainer<T> {
    type V = Training<T>;

    closed spec fn view(&self) -> Training<T> {
        Training {
            size: self.size as nat,
            seen: self.seen@,
            contexts: Map::new(
                |k: T| self.contexts@.contains_key(k),
                |k: T| self.contexts@[k]@,
            ),
        }
    }
}

impl<T: Eq + Hash> Trainer<T> {
    /// Whether the counter of `k` is in order: it is well formed, `k` has
    /// been observed at least once and at most as often as words were seen,
    /// and each observation has recorded at most a window of words.
    spec fn counter_inv(&self, k: T) -> bool {
        &&& self.contexts@[k].wf()
        &&& 1 <= self.contexts@[k]@.total <= self.seen@.len()
        &&& self.contexts@[k]@.context_words() <= self.contexts@[k]@.total * longest_window(
            self.size as nat,
            self.seen@.len(),
        )
    }

    /// The counters are well formed. Every word that has observations has
    /// been observed at least once, and at most as often as words were seen;
    /// and each observation has recorded at most a window of words.
    pub closed spec fn wf(&self) -> bool {
        &&& obeys_key_model::<T>()
        &&& self.seen.wf()
        &&& forall|k: T| #[trigger] self.contexts@.contains_key(k) ==> self.counter_inv(k)
    }

    /// Every word with observations has been observed at least once, and at
    /// most as often as words were seen; the event had occurred at no more
    /// of its observations than there are; and its contexts hold at most a
    /// window of words for each observation.
    pub proof fn lemma_observations(&self, k: T)
        requires
            self.wf(),
            self@.contexts.contains_key(k),
        ensures
            1 <= self@.contexts[k].total <= self@.seen.len(),
            self@.contexts[k].positive <= self@.contexts[k].total,
            self@.contexts[k].context_words() <= self@.contexts[k].total * longest_window(
                self@.size,
                self@.seen.len(),
            ),
    {
        assert(self.contexts@.contains_key(k));
        assert(self.counter_inv(k));
        self.contexts@[k].lemma_positive_at_most_total();
    }

    /// A trainer that has collected nothing, for windows of `context_size`
    /// words.
    pub fn new(context_size: usize) -> (trainer: Trainer<T>)
        requires
            obeys_key_model::<T>(),
        ensures
            trainer.wf(),
            trainer@ == Training::<T>::empty(context_size as nat),
    {
        let trainer = Trainer { size: context_size, seen: EventCtr::new(), contexts: HashMap::new() };
        proof {
            assert(trainer@.contexts =~= Map::<T, Observations<T>>::empty());
        }
        trainer
    }

    /// The width of the window.
    pub fn size(&self) -> (size: usize)
        ensures
            size == self@.size,
    {
        self.size
    }

    /// The counts of the words seen.
    pub fn seen(&self) -> (seen: &EventCtr<T>)
        requires
            self.wf(),
        ensures
            seen.wf(),
            seen@ == self@.seen,
    {
        &self.seen
    }

    /// The probability given to a word that was never seen: one over the
    /// number of words seen.
    pub fn p_unseen(&self) -> (p: Ratio)
        requires
            self.wf(),
        ensures
            p.numer == 1,
            p.denom == self@.seen.len(),
    {
        Ratio::new(1, self.seen.total())
    }

    /// Looks at each of `events` in turn. The word that `untag` makes of an
    /// event is counted as seen. Where `is_example` holds of the event, an
    /// observation is recorded with that word: the words that `untag` makes
    /// of the events in the window before it are its context, and `is_tag`
    /// says whether the event of interest had occurred.
    pub fn train<IsExample, Untag, IsTag>(
        &mut self,
        events: &[T],
        is_example: IsExample,
        untag: Untag,
        is_tag: IsTag,
    ) where IsExample: Fn(&T) -> bool, Untag: Fn(&T) -> T, IsTag: Fn(&T) -> bool
        requires
            old(self).wf(),
            is_function(is_example),
            is_function(untag),
            is_function(is_tag),
            old(self)@.seen.len() + events.len() <= usize::MAX,
            (old(self)@.seen.len() + events.len()) * longest_window(
                old(self)@.size,
                (old(self)@.seen.len() + events.len()) as nat,
            ) <= usize::MAX,
        ensures
            final(self).wf(),
            exists|words: Seq<T>, examples: Seq<bool>, occurred: Seq<bool>| #[trigger]
                reads(events@, is_example, untag, is_tag, words, examples, occurred)
                    && final(self)@ == old(self)@.trained(
                    words,
                    examples,
                    occurred,
                    events.len() as int,
                ),
    {
        let ghost start_view = self@;
        let ghost mut words: Seq<T> = Seq::empty();
        let ghost mut examples: Seq<bool> = Seq::empty();
        let ghost mut occurred: Seq<bool> = Seq::empty();
        let ghost bound = (self@.seen.len() + events.len()) as nat;
        let n = events.len();
        let mut i: usize = 0;
        while i < n
            invariant
                0 <= i <= n,
                n == events.len(),
                self.wf(),
                is_function(is_example),
                is_function(untag),
                is_function(is_tag),
                reads(events@.take(i as int), is_example, untag, is_tag, words, examples, occurred),
                self@ == start_view.trained(words, examples, occurred, i as int),
                self@.seen.len() + (n - i) == bound,
                self.size == start_view.size,
                n <= bound <= usize::MAX,
                bound * longest_window(self.size as nat, bound) <= usize::MAX,
            decreases n - i,
        {
            let evt = &events[i];
            let ghost before = self@;
            let ghost seen_words = words;
            let ghost seen_examples = examples;
            let ghost seen_occurred = occurred;
            let word = untag(evt);
            proof {
                assert forall|k: int| 0 <= k < i implies call_ensures(
                    untag,
                    (&#[trigger] events@[k],),
                    seen_words[k],
                ) by {
                    assert(events@.take(i as int)[k] == events@[k]);
                }
            }
            let ghost counters = self.contexts@;
            let ghost seen_before = self.seen@.len();
            self.seen.inc(word);
            proof {
                // A longer text only widens what a counter may hold.
                assert forall|k: T| #[trigger] self.contexts@.contains_key(k) implies self.counter_inv(
                    k,
                ) by {
                    lemma_product_grows(
                        counters[k]@.total,
                        longest_window(self.size as nat, seen_before),
                        counters[k]@.total,
                        longest_window(self.size as nat, self.seen@.len()),
                    );
                }
            }
            let example = is_example(evt);
            let ghost mut tag: bool = false;
            proof {
                words = words.push(word);
                examples = examples.push(example);
            }
            if example {
                let start: usize = if i > self.size {
                    i - self.size
                } else {
                    0
                };
                let mut context: Vec<T> = Vec::new();
                let mut j: usize = start;
                while j < i
                    invariant
                        start <= j <= i < n,
                        n == events.len(),
                        is_function(untag),
                        seen_words.len() == i,
                        forall|k: int|
                            0 <= k < i ==> call_ensures(
                                untag,
                                (&#[trigger] events@[k],),
                                seen_words[k],
                            ),
                        context@ == seen_words.subrange(start as int, j as int),
                    decreases i - j,
                {
                    let before_word = untag(&events[j]);
                    proof {
                        assert(call_ensures(untag, (&events@[j as int],), seen_words[j as int]));
                        assert(seen_words.subrange(start as int, j + 1) =~= seen_words.subrange(
                            start as int,
                            j as int,
                        ).push(seen_words[j as int]));
                    }
                    context.push(before_word);
                    j = j + 1;
                }
                let key = untag(evt);
                let occurred_here = is_tag(evt);
                proof {
                    tag = occurred_here;
                    assert(seen_words.subrange(start as int, i as int) =~= words.subrange(
                        start as int,
                        i as int,
                    ));
                }
                let mut counter = match self.contexts.remove(&key) {
                    Some(c) => c,
                    None => CtxCounter::new(),
                };
                let ghost longest = longest_window(self.size as nat, self.seen@.len());
                proof {
                    let total = counter@.total;
                    assert(total + 1 <= self.seen@.len());
                    assert(self.seen@.len() == seen_before + 1);
                    assert(context@.len() == i - start);
                    assert(context.len() <= longest);
                    assert(counter@.context_words() + context.len() <= (total + 1) * longest)
                        by (nonlinear_arith)
                        requires
                            counter@.context_words() <= total * longest,
                            context.len() <= longest,
                    ;
                    lemma_product_grows(
                        (total + 1) as nat,
                        longest,
                        bound,
                        longest_window(self.size as nat, bound),
                    );
                }
                let ghost window = context@;
                let ghost removed = self.contexts@;
                let ghost counted = counter@;
                counter.seen(context, occurred_here);
                proof {
                    window.to_multiset_ensures();
                    assert(counter@.total == counted.total + 1);
                    assert(counter@.context_words() == counted.context_words() + window.len());
                }
                self.contexts.insert(key, counter);
                proof {
                    assert forall|k: T| #[trigger] self.contexts@.contains_key(k) implies self.counter_inv(
                        k,
                    ) by {
                        if k != key {
                            assert(removed.contains_key(k));
                            assert(counters.contains_key(k));
                        }
                    }
                    assert(self@.contexts =~= before.observe(
                        words,
                        i as int,
                        example,
                        occurred_here,
                    ).contexts);
                }
            } else {
                proof {
                    assert(self@.contexts =~= before.contexts);
                }
            }
            proof {
                occurred = occurred.push(tag);
                assert(events@.take(i + 1) =~= events@.take(i as int).push(events@[i as int]));
                assert forall|k: int|
                    #![trigger events@.take(i + 1)[k]]
                    0 <= k < i + 1 implies {
                    &&& call_ensures(untag, (&events@.take(i + 1)[k],), words[k])
                    &&& call_ensures(is_example, (&events@.take(i + 1)[k],), examples[k])
                    &&& examples[k] ==> call_ensures(
                        is_tag,
                        (&events@.take(i + 1)[k],),
                        occurred[k],
                    )
                } by {
                    if k < i {
                        assert(events@.take(i as int)[k] == events@[k]);
                        assert(words[k] == seen_words[k]);
                        assert(examples[k] == seen_examples[k]);
                        assert(occurred[k] == seen_occurred[k]);
                    }
                }
                assert(words.take(i as int) =~= seen_words.take(i as int));
                assert(examples.take(i as int) =~= seen_examples.take(i as int));
                assert(occurred.take(i as int) =~= seen_occurred.take(i as int));
                lemma_trained_prefix(
                    start_view,
                    seen_words,
                    seen_examples,
                    seen_occurred,
                    words,
                    examples,
                    occurred,
                    i as int,
                );
            }
            i = i + 1;
        }
        proof {
            assert(events@.take(n as int) =~= events@);
        }
    }

    /// The counters of the words that were observed as possible events.
    pub fn contexts(&self) -> (contexts: &ContextMap<T>)
        requires
            self.wf(),
        ensures
            obeys_key_model::<T>(),
            contexts@.dom() == self@.contexts.dom(),
            forall|k: T| #[trigger]
                contexts@.contains_key(k) ==> contexts@[k]@ == self@.contexts[k] && contexts@[k].wf()
                    && contexts@[k]@.total > 0,
    {
        proof {
            assert(self.contexts@.dom() =~= self@.contexts.dom());
        }
        &self.contexts
    }

    /// What was observed of `word` as a possible event, if anything was.
    pub fn context_of(&self, word: &T) -> (counter: Option<&CtxCounter<T>>)
        requires
            self.wf(),
        ensures
            match counter {
                Some(c) => self@.contexts.contains_key(*word) && c@ == self@.contexts[*word]
                    && c.wf() && c@.total > 0,
                None => !self@.contexts.contains_key(*word),
            },
    {
        self.contexts.get(word)
    }
}

} // verus!
