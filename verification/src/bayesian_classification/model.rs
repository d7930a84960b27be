//! The classifier that a trainer's statistics give.
use crate::bayesian_classification::event_counter::EventCtr;
use crate::bayesian_classification::training::{
    is_evidence,
    CtxCounter,
    Observations,
    Trainer,
    Training,
};
use crate::order::Order;
use crate::natural::Natural;
use crate::ratio::Ratio;
use std::collections::HashMap;
use std::hash::Hash;
use vstd::multiset::*;
use vstd::prelude::*;
use vstd::slice::slice_subrange;
use vstd::std_specs::hash::*;
use vstd::std_specs::iter::IteratorSpec;

verus! {

broadcast use {vstd::std_specs::hash::group_hash_axioms, vstd::multiset::group_multiset_axioms};

/// From a word to a probability.
pub type ProbabilityMap<U> = HashMap<U, Ratio>;

/// From a word that may mark an event to what is known of it.
pub type ContextMap<U> = HashMap<U, Ambiguity<U>>;

/// The map that holds the pairs of `pairs`: where a key occurs more than
/// once, the last pair with that key decides.
pub open spec fn collected<K, V>(pairs: Seq<(K, V)>) -> Map<K, V>
    decreases pairs.len(),
{
    if pairs.len() == 0 {
        Map::empty()
    } else {
        collected(pairs.drop_last()).insert(pairs.last().0, pairs.last().1)
    }
}

/// Where no key occurs twice, the map holds each pair, and nothing else.
pub proof fn lemma_collected_distinct<K, V>(pairs: Seq<(K, V)>)
    requires
        forall|i: int, j: int|
            0 <= i < j < pairs.len() ==> (#[trigger] pairs[i]).0 != (#[trigger] pairs[j]).0,
    ensures
        forall|i: int|
            0 <= i < pairs.len() ==> collected(pairs).contains_key((#[trigger] pairs[i]).0)
                && collected(pairs)[pairs[i].0] == pairs[i].1,
        forall|k: K|
            collected(pairs).contains_key(k) ==> exists|i: int|
                0 <= i < pairs.len() && (#[trigger] pairs[i]).0 == k,
    decreases pairs.len(),
{
    if pairs.len() > 0 {
        let before = pairs.drop_last();
        let last = pairs.last();
        assert forall|i: int, j: int| 0 <= i < j < before.len() implies (#[trigger] before[i]).0
            != (#[trigger] before[j]).0 by {
            assert(before[i] == pairs[i]);
            assert(before[j] == pairs[j]);
        }
        lemma_collected_distinct(before);
        assert forall|i: int| 0 <= i < pairs.len() implies collected(pairs).contains_key(
            (#[trigger] pairs[i]).0,
        ) && collected(pairs)[pairs[i].0] == pairs[i].1 by {
            if i < pairs.len() - 1 {
                assert(before[i] == pairs[i]);
                assert(pairs[i].0 != pairs[pairs.len() - 1].0);
            }
        }
        assert forall|k: K| collected(pairs).contains_key(k) implies exists|i: int|
            0 <= i < pairs.len() && (#[trigger] pairs[i]).0 == k by {
            if k == last.0 {
                assert(pairs[pairs.len() - 1].0 == k);
            } else {
                assert(collected(before).contains_key(k));
                let i = choose|i: int| 0 <= i < before.len() && (#[trigger] before[i]).0 == k;
                assert(before[i] == pairs[i]);
                assert(pairs[i].0 == k);
            }
        }
    }
}

/// Puts the pairs of `pairs` into a map, one after the other.
pub fn collect<K: Eq + Hash, V>(pairs: Vec<(K, V)>) -> (map: HashMap<K, V>)
    requires
        obeys_key_model::<K>(),
    ensures
        map@ == collected(pairs@),
{
    let mut map: HashMap<K, V> = HashMap::new();
    let ghost all = pairs@;
    for pair in it: pairs.into_iter()
        invariant
            obeys_key_model::<K>(),
            it.seq() == all,
            map@ == collected(all.take(it.index() as int)),
    {
        proof {
            let i = it.index() as int;
            assert(all.take(i + 1).drop_last() =~= all.take(i));
        }
        map.insert(pair.0, pair.1);
    }
    proof {
        assert(all.take(all.len() as int) =~= all);
    }
    map
}

/// Whether `keys` lists the keys of `map`, each once.
pub open spec fn enumerates<K, V>(map: Map<K, V>, keys: Seq<K>) -> bool {
    &&& keys.no_duplicates()
    &&& forall|i: int| 0 <= i < keys.len() ==> map.contains_key(#[trigger] keys[i])
    &&& forall|k: K| #[trigger] map.contains_key(k) ==> keys.contains(k)
}

/// The entries of `map`, each once, in no particular order.
pub fn entries<'a, K: Eq + Hash, V>(map: &'a HashMap<K, V>) -> (out: Vec<(&'a K, &'a V)>)
    requires
        obeys_key_model::<K>(),
    ensures
        enumerates(map@, Seq::new(out.len() as nat, |i: int| *out[i].0)),
        forall|i: int|
            0 <= i < out.len() ==> map@.contains_key(*(#[trigger] out[i]).0) && *out[i].1
                == map@[*out[i].0],
{
    let mut out: Vec<(&'a K, &'a V)> = Vec::new();
    for entry in it: map.iter()
        invariant
            out.len() == it.index(),
            forall|i: int| 0 <= i < out.len() ==> (#[trigger] out[i]) == it.seq()[i],
    {
        out.push(entry);
    }
    proof {
        let all = spec_hash_map_iter(map).remaining();
        let keys = Seq::new(out.len() as nat, |i: int| *out[i].0);
        assert forall|i: int| 0 <= i < out.len() implies map@.contains_key(
            *(#[trigger] out[i]).0,
        ) && *out[i].1 == map@[*out[i].0] by {
            assert(map@.contains_key(*all[i].0));
        }
        assert forall|i: int, j: int|
            0 <= i < keys.len() && 0 <= j < keys.len() && i != j implies keys[i] != keys[j] by {
            assert(map@[*all[i].0] == *all[i].1);
            assert(map@[*all[j].0] == *all[j].1);
            assert(all[i] != all[j]);
        }
        assert forall|k: K| map@.contains_key(k) implies keys.contains(k) by {
            assert(all.contains((&k, &map@[k])));
            let i = choose|i: int| 0 <= i < all.len() && all[i] == (&k, &map@[k]);
            assert(keys[i] == k);
        }
        assert forall|i: int| 0 <= i < keys.len() implies map@.contains_key(
            #[trigger] keys[i],
        ) by {
            assert(map@.contains_key(*out[i].0));
        }
    }
    out
}

/// What is known of a word that may mark an event: how likely the event is
/// there, and how likely each context word is before it, where the event
/// occurs and where it does not.
#[verifier::reject_recursive_types(U)]
pub struct Evidence<U> {
    pub p_raw: Ratio,
    pub pos_context: Map<U, Ratio>,
    pub neg_context: Map<U, Ratio>,
}

/// Whether `e` is what the observations `obs` amount to, with `corpus` as
/// the counts of all words and `to_u` to name the words: the raw probability
/// is the share of the observations at which the event had occurred, and
/// each side holds the evidence of its context words, under the names that
/// `to_u` gives them.
pub open spec fn describes<T, U, F: Fn(&T) -> U>(
    obs: Observations<T>,
    corpus: Multiset<T>,
    to_u: F,
    e: Evidence<U>,
) -> bool {
    &&& e.p_raw.numer == obs.positive
    &&& e.p_raw.denom == obs.total
    &&& exists|pos: Seq<(U, Ratio)>| #[trigger]
        is_evidence(obs.pos_context, corpus, to_u, pos) && e.pos_context == collected(pos)
    &&& exists|neg: Seq<(U, Ratio)>| #[trigger]
        is_evidence(obs.neg_context, corpus, to_u, neg) && e.neg_context == collected(neg)
}

/// Whether `pairs` holds, for each key of `keys` in turn, what `convert`
/// makes of the key, and the value that `map` has for the key; where `keys`
/// lists the keys of `map`.
pub open spec fn rekeys<U, V, W, F: Fn(&U) -> V>(
    map: Map<U, W>,
    convert: F,
    keys: Seq<U>,
    pairs: Seq<(V, W)>,
) -> bool {
    &&& enumerates(map, keys)
    &&& pairs.len() == keys.len()
    &&& forall|i: int|
        #![trigger keys[i]]
        0 <= i < keys.len() ==> call_ensures(convert, (&keys[i],), pairs[i].0) && pairs[i].1
            == map[keys[i]]
}

/// Whether `out` is `map` under new keys: each key replaced by what
/// `convert` makes of it, with its value unchanged. Where `convert` gives
/// one new key for two keys of `map`, one of the two values is kept.
pub open spec fn is_rekeyed<U, V, W, F: Fn(&U) -> V>(map: Map<U, W>, convert: F, out: Map<V, W>) -> bool {
    exists|keys: Seq<U>, pairs: Seq<(V, W)>| #[trigger]
        rekeys(map, convert, keys, pairs) && out == collected(pairs)
}

/// Whether `convert` gives one new key for each key of `map`, and different
/// new keys for different keys.
pub open spec fn converts_one_to_one<U, V, W, F: Fn(&U) -> V>(map: Map<U, W>, convert: F) -> bool {
    forall|k1: U, k2: U, v1: V, v2: V|
        map.contains_key(k1) && map.contains_key(k2) && #[trigger] call_ensures(
            convert,
            (&k1,),
            v1,
        ) && #[trigger] call_ensures(convert, (&k2,), v2) ==> (k1 == k2 <==> v1 == v2)
}

/// Under a conversion that is one to one, re-keying loses nothing and
/// changes no value: each key of the map is found under its new key with
/// the value it had, and every new key comes from a key of the map.
pub proof fn lemma_rekeyed_one_to_one<U, V, W, F: Fn(&U) -> V>(
    map: Map<U, W>,
    convert: F,
    out: Map<V, W>,
)
    requires
        is_rekeyed(map, convert, out),
        converts_one_to_one(map, convert),
    ensures
        forall|k: U, v: V|
            map.contains_key(k) && #[trigger] call_ensures(convert, (&k,), v) ==> out.contains_key(
                v,
            ) && out[v] == map[k],
        forall|v: V| #[trigger]
            out.contains_key(v) ==> exists|k: U|
                map.contains_key(k) && #[trigger] call_ensures(convert, (&k,), v),
{
    let (keys, pairs) = choose|keys: Seq<U>, pairs: Seq<(V, W)>| #[trigger]
        rekeys(map, convert, keys, pairs) && out == collected(pairs);
    assert forall|i: int, j: int| 0 <= i < j < pairs.len() implies (#[trigger] pairs[i]).0 != (
    #[trigger] pairs[j]).0 by {
        assert(call_ensures(convert, (&keys[i],), pairs[i].0));
        assert(call_ensures(convert, (&keys[j],), pairs[j].0));
        assert(keys[i] != keys[j]);
    }
    lemma_collected_distinct(pairs);
    assert forall|k: U, v: V|
        map.contains_key(k) && #[trigger] call_ensures(convert, (&k,), v) implies out.contains_key(
        v,
    ) && out[v] == map[k] by {
        assert(keys.contains(k));
        let i = choose|i: int| 0 <= i < keys.len() && keys[i] == k;
        assert(call_ensures(convert, (&keys[i],), pairs[i].0));
        assert(pairs[i].0 == v);
        assert(collected(pairs)[pairs[i].0] == pairs[i].1);
    }
    assert forall|v: V| #[trigger] out.contains_key(v) implies exists|k: U|
        map.contains_key(k) && #[trigger] call_ensures(convert, (&k,), v) by {
        let i = choose|i: int| 0 <= i < pairs.len() && (#[trigger] pairs[i]).0 == v;
        assert(call_ensures(convert, (&keys[i],), pairs[i].0));
        assert(map.contains_key(keys[i]));
    }
}

/// Whether `out` is `e` under new keys, with all probabilities unchanged.
pub open spec fn relocates<U, V, F: Fn(&U) -> V>(e: Evidence<U>, convert: F, out: Evidence<V>) -> bool {
    &&& out.p_raw == e.p_raw
    &&& is_rekeyed(e.pos_context, convert, out.pos_context)
    &&& is_rekeyed(e.neg_context, convert, out.neg_context)
}

/// Puts `map` under new keys.
fn rekey<U: Eq + Hash, V: Eq + Hash, F: Fn(&U) -> V>(map: &ProbabilityMap<U>, convert: &F) -> (out:
    ProbabilityMap<V>)
    requires
        obeys_key_model::<U>(),
        obeys_key_model::<V>(),
        forall|k: &U| call_requires(*convert, (k,)),
    ensures
        is_rekeyed(map@, *convert, out@),
{
    let all = entries(map);
    let ghost keys = Seq::new(all.len() as nat, |i: int| *all[i].0);
    let mut out: ProbabilityMap<V> = HashMap::new();
    let ghost mut pairs: Seq<(V, Ratio)> = Seq::empty();
    let mut i: usize = 0;
    while i < all.len()
        invariant
            0 <= i <= all.len(),
            obeys_key_model::<V>(),
            forall|k: &U| call_requires(*convert, (k,)),
            keys == Seq::new(all.len() as nat, |i: int| *all[i].0),
            forall|j: int|
                0 <= j < all.len() ==> map@.contains_key(*(#[trigger] all[j]).0) && *all[j].1
                    == map@[*all[j].0],
            pairs.len() == i,
            forall|j: int|
                0 <= j < i ==> call_ensures(*convert, (&#[trigger] keys[j],), pairs[j].0)
                    && pairs[j].1 == map@[keys[j]],
            out@ == collected(pairs),
        decreases all.len() - i,
    {
        let key = convert(all[i].0);
        let value = *all[i].1;
        proof {
            assert(pairs.push((key, value)).drop_last() =~= pairs);
            pairs = pairs.push((key, value));
        }
        out.insert(key, value);
        i = i + 1;
    }
    proof {
        assert(rekeys(map@, *convert, keys, pairs));
    }
    out
}

/// What is known of one word that may mark an event.
#[derive(Debug)]
pub struct Ambiguity<U: Hash + Eq> {
    p_raw: Ratio,
    pos_context: ProbabilityMap<U>,
    neg_context: ProbabilityMap<U>,
}

impl<U: Hash + Eq> View for Ambiguity<U> {
    type V = Evidence<U>;

    closed spec fn view(&self) -> Evidence<U> {
        Evidence {
            p_raw: self.p_raw,
            pos_context: self.pos_context@,
            neg_context: self.neg_context@,
        }
    }
}

impl<U: Hash + Eq> Ambiguity<U> {
    /// What the observations of `ctr` amount to.
    fn new<T, TtoU>(ctr: &CtxCounter<T>, event_counts: &EventCtr<T>, to_u: &TtoU) -> (a: Ambiguity<
        U,
    >) where T: Hash + Eq, TtoU: Fn(&T) -> U
        requires
            obeys_key_model::<U>(),
            ctr.wf(),
            ctr@.total > 0,
            event_counts.wf(),
            forall|w: &T| call_requires(*to_u, (w,)),
        ensures
            describes(ctr@, event_counts@, *to_u, a@),
    {
        let pos = ctr.pos_evidence(to_u, event_counts);
        let neg = ctr.neg_evidence(to_u, event_counts);
        Ambiguity {
            p_raw: ctr.base_probability(),
            pos_context: collect(pos),
            neg_context: collect(neg),
        }
    }

    /// The same under new keys.
    fn localize<V: Hash + Eq, UtoV>(&self, convert: &UtoV) -> (a: Ambiguity<V>) where
        UtoV: Fn(&U) -> V,

        requires
            obeys_key_model::<U>(),
            obeys_key_model::<V>(),
            forall|k: &U| call_requires(*convert, (k,)),
        ensures
            relocates(self@, *convert, a@),
    {
        Ambiguity {
            p_raw: self.p_raw,
            pos_context: rekey(&self.pos_context, convert),
            neg_context: rekey(&self.neg_context, convert),
        }
    }
}

impl<U> Evidence<U> {
    /// The probability of the context word `word` where the event occurs;
    /// `p_unseen` if nothing is known of the word there.
    pub open spec fn pos_term(self, word: U, p_unseen: Ratio) -> Ratio {
        if self.pos_context.contains_key(word) {
            self.pos_context[word]
        } else {
            p_unseen
        }
    }

    /// The probability of the context word `word` where the event does not
    /// occur; `p_unseen` if nothing is known of the word there.
    pub open spec fn neg_term(self, word: U, p_unseen: Ratio) -> Ratio {
        if self.neg_context.contains_key(word) {
            self.neg_context[word]
        } else {
            p_unseen
        }
    }
}

/// A classifier as a value: the width of the window, the probability of a
/// context word that was never seen, and what is known of each word that may
/// mark an event.
#[verifier::reject_recursive_types(U)]
pub struct Classifier<U> {
    pub size: nat,
    pub p_unseen: Ratio,
    pub contexts: Map<U, Evidence<U>>,
}

/// Whether `pairs` holds, for each word of `keys` in turn, the name that
/// `to_u` gives the word, and what the observations of the word amount to;
/// where `keys` lists the words that `training` has observations of.
pub open spec fn builds<T, U, F: Fn(&T) -> U>(
    training: Training<T>,
    to_u: F,
    keys: Seq<T>,
    pairs: Seq<(U, Evidence<U>)>,
) -> bool {
    &&& enumerates(training.contexts, keys)
    &&& pairs.len() == keys.len()
    &&& forall|i: int|
        #![trigger keys[i]]
        0 <= i < keys.len() ==> call_ensures(to_u, (&keys[i],), pairs[i].0) && describes(
            training.contexts[keys[i]],
            training.seen,
            to_u,
            pairs[i].1,
        )
}

/// Whether `out` is what `training` amounts to, under the names that `to_u`
/// gives. Where `to_u` gives one name to two words, what is kept under that
/// name is what one of the two amounts to.
pub open spec fn is_built<T, U, F: Fn(&T) -> U>(
    training: Training<T>,
    to_u: F,
    out: Map<U, Evidence<U>>,
) -> bool {
    exists|keys: Seq<T>, pairs: Seq<(U, Evidence<U>)>| #[trigger]
        builds(training, to_u, keys, pairs) && out == collected(pairs)
}

/// Whether `pairs` holds, for each key of `keys` in turn, what `convert`
/// makes of the key, and what `contexts` knows of the key under new keys;
/// where `keys` lists the keys of `contexts`.
pub open spec fn relocations<U, V, F: Fn(&U) -> V>(
    contexts: Map<U, Evidence<U>>,
    convert: F,
    keys: Seq<U>,
    pairs: Seq<(V, Evidence<V>)>,
) -> bool {
    &&& enumerates(contexts, keys)
    &&& pairs.len() == keys.len()
    &&& forall|i: int|
        #![trigger keys[i]]
        0 <= i < keys.len() ==> call_ensures(convert, (&keys[i],), pairs[i].0) && relocates(
            contexts[keys[i]],
            convert,
            pairs[i].1,
        )
}

/// Whether `out` is `contexts` under new keys, with all probabilities
/// unchanged. Where `convert` gives one new key for two keys, what is kept
/// under it comes from one of the two.
pub open spec fn is_localized<U, V, F: Fn(&U) -> V>(
    contexts: Map<U, Evidence<U>>,
    convert: F,
    out: Map<V, Evidence<V>>,
) -> bool {
    exists|keys: Seq<U>, pairs: Seq<(V, Evidence<V>)>| #[trigger]
        relocations(contexts, convert, keys, pairs) && out == collected(pairs)
}

/// The two likelihoods of a word, as the probabilities that they are the
/// products of: the raw probability of the event, and for each context word
/// in turn its probability where the event occurs and where it does not. The
/// score for the event is the sum of the logarithms of `p_raw` and of `pos`;
/// the score against it is that of `1 - p_raw` and of `neg`.
#[derive(Debug)]
pub struct Likelihood {
    pub p_raw: Ratio,
    pub pos: Vec<Ratio>,
    pub neg: Vec<Ratio>,
}

/// The product of the numerators of `terms`.
pub open spec fn numerators(terms: Seq<Ratio>) -> nat
    decreases terms.len(),
{
    if terms.len() == 0 {
        1
    } else {
        numerators(terms.drop_last()) * (terms.last().numer as nat)
    }
}

/// The product of the denominators of `terms`.
pub open spec fn denominators(terms: Seq<Ratio>) -> nat
    decreases terms.len(),
{
    if terms.len() == 0 {
        1
    } else {
        denominators(terms.drop_last()) * (terms.last().denom as nat)
    }
}

/// Whether the likelihood of the event is greater than that of its absence:
/// whether `p_raw` times the product of `pos` is greater than `1 - p_raw`
/// times the product of `neg`, which is to say that the logarithms of the
/// former sum to more than those of the latter. Both sides are brought to
/// the denominator that they have in common, which leaves whole numbers to
/// compare. A `p_raw` above one decides for the absence.
pub open spec fn exceeds(p_raw: Ratio, pos: Seq<Ratio>, neg: Seq<Ratio>) -> bool {
    &&& p_raw.numer <= p_raw.denom
    &&& p_raw.numer * numerators(pos) * denominators(neg) > (p_raw.denom - p_raw.numer)
        * numerators(neg) * denominators(pos)
}

/// Ties go to the absence of the event: where the two likelihoods are equal,
/// the one does not exceed the other.
pub proof fn lemma_tie_is_no_instance(p_raw: Ratio, pos: Seq<Ratio>, neg: Seq<Ratio>)
    requires
        p_raw.numer * numerators(pos) * denominators(neg) == (p_raw.denom - p_raw.numer)
            * numerators(neg) * denominators(pos),
    ensures
        !exceeds(p_raw, pos, neg),
{
}

/// The product of `start` and of the numerators of `terms`, or of their
/// denominators.
fn times_all(start: Natural, terms: &Vec<Ratio>, numerator: bool) -> (product: Natural)
    ensures
        product@ == start@ * if numerator {
            numerators(terms@)
        } else {
            denominators(terms@)
        },
{
    let mut product = start;
    let ghost first = start@;
    let mut i: usize = 0;
    proof {
        assert(terms@.take(0) =~= Seq::<Ratio>::empty());
        assert(first * 1 == first);
    }
    while i < terms.len()
        invariant
            0 <= i <= terms.len(),
            product@ == first * if numerator {
                numerators(terms@.take(i as int))
            } else {
                denominators(terms@.take(i as int))
            },
        decreases terms.len() - i,
    {
        let factor = if numerator {
            terms[i].numer
        } else {
            terms[i].denom
        };
        proof {
            assert(terms@.take(i + 1).drop_last() =~= terms@.take(i as int));
            assert(terms@.take(i + 1).last() == terms@[i as int]);
            let so_far = if numerator {
                numerators(terms@.take(i as int))
            } else {
                denominators(terms@.take(i as int))
            };
            assert(first * so_far * factor == first * (so_far * factor)) by (nonlinear_arith);
        }
        product = product.times(factor);
        i = i + 1;
    }
    proof {
        assert(terms@.take(terms.len() as int) =~= terms@);
    }
    product
}

impl Likelihood {
    /// Whether the likelihood of the event is greater than that of its
    /// absence. Equal likelihoods give no.
    pub fn favours_event(&self) -> (favours: bool)
        ensures
            favours == exceeds(self.p_raw, self.pos@, self.neg@),
    {
        if self.p_raw.numer > self.p_raw.denom {
            return false;
        }
        let event = Natural::one().times(self.p_raw.numer);
        let event = times_all(event, &self.pos, true);
        let event = times_all(event, &self.neg, false);
        let absence = Natural::one().times(self.p_raw.denom - self.p_raw.numer);
        let absence = times_all(absence, &self.neg, true);
        let absence = times_all(absence, &self.pos, false);
        proof {
            assert(1 * (self.p_raw.numer as nat) == self.p_raw.numer);
            assert(1 * ((self.p_raw.denom - self.p_raw.numer) as nat) == self.p_raw.denom
                - self.p_raw.numer);
        }
        match event.compare(&absence) {
            Order::Greater => true,
            _ => false,
        }
    }
}

/// A classifier for one binary event.
#[derive(Debug)]
pub struct Model<U: Hash + Eq> {
    size: usize,
    p_unseen: Ratio,
    contexts: ContextMap<U>,
}

impl<U: Hash + Eq> View for Model<U> {
    type V = Classifier<U>;

    closed spec fn view(&self) -> Classifier<U> {
        Classifier {
            size: self.size as nat,
            p_unseen: self.p_unseen,
            contexts: Map::new(
                |k: U| self.contexts@.contains_key(k),
                |k: U| self.contexts@[k]@,
            ),
        }
    }
}

impl<U> Classifier<U> {
    /// The probabilities of the words of `context` where the event occurs at
    /// `instance`, in order.
    pub open spec fn pos_terms(self, instance: U, context: Seq<U>) -> Seq<Ratio> {
        Seq::new(
            context.len(),
            |i: int| self.contexts[instance].pos_term(context[i], self.p_unseen),
        )
    }

    /// The probabilities of the words of `context` where the event does not
    /// occur at `instance`, in order.
    pub open spec fn neg_terms(self, instance: U, context: Seq<U>) -> Seq<Ratio> {
        Seq::new(
            context.len(),
            |i: int| self.contexts[instance].neg_term(context[i], self.p_unseen),
        )
    }

    /// Whether `instance` marks the event after `context`: something is
    /// known of `instance`, and the likelihood of the event is greater than
    /// that of its absence.
    pub open spec fn favours(self, instance: U, context: Seq<U>) -> bool {
        &&& self.contexts.contains_key(instance)
        &&& exceeds(
            self.contexts[instance].p_raw,
            self.pos_terms(instance, context),
            self.neg_terms(instance, context),
        )
    }
}

impl<U: Hash + Eq> Model<U> {
    /// The keys obey the model of hash table keys.
    pub open spec fn wf(&self) -> bool {
        obeys_key_model::<U>()
    }

    /// The classifier that the statistics of `trainer` give, with `to_u` to
    /// name the words: the window is that of the trainer, a word never seen
    /// has the probability one over the number of words seen, and for each
    /// word with observations there is what they amount to.
    pub fn new<T, TtoU>(trainer: &Trainer<T>, to_u: TtoU) -> (model: Model<U>) where
        T: Hash + Eq,
        TtoU: Fn(&T) -> U,

        requires
            obeys_key_model::<U>(),
            trainer.wf(),
            forall|w: &T| call_requires(to_u, (w,)),
        ensures
            model.wf(),
            model@.size == trainer@.size,
            model@.p_unseen.numer == 1,
            model@.p_unseen.denom == trainer@.seen.len(),
            is_built(trainer@, to_u, model@.contexts),
    {
        let counters = trainer.contexts();
        let all = entries(counters);
        let ghost keys = Seq::new(all.len() as nat, |i: int| *all[i].0);
        let mut contexts: ContextMap<U> = HashMap::new();
        let ghost mut pairs: Seq<(U, Evidence<U>)> = Seq::empty();
        let ghost mut views: Map<U, Evidence<U>> = Map::empty();
        let mut i: usize = 0;
        while i < all.len()
            invariant
                0 <= i <= all.len(),
                obeys_key_model::<U>(),
                trainer.wf(),
                forall|w: &T| call_requires(to_u, (w,)),
                keys == Seq::new(all.len() as nat, |i: int| *all[i].0),
                counters@.dom() == trainer@.contexts.dom(),
                forall|k: T| #[trigger]
                    counters@.contains_key(k) ==> counters@[k]@ == trainer@.contexts[k]
                        && counters@[k].wf() && counters@[k]@.total > 0,
                forall|j: int|
                    0 <= j < all.len() ==> counters@.contains_key(*(#[trigger] all[j]).0)
                        && *all[j].1 == counters@[*all[j].0],
                pairs.len() == i,
                forall|j: int|
                    0 <= j < i ==> call_ensures(to_u, (&#[trigger] keys[j],), pairs[j].0)
                        && describes(
                        trainer@.contexts[keys[j]],
                        trainer@.seen,
                        to_u,
                        pairs[j].1,
                    ),
                views == collected(pairs),
                views.dom() == contexts@.dom(),
                forall|k: U| #[trigger] contexts@.contains_key(k) ==> contexts@[k]@ == views[k],
            decreases all.len() - i,
        {
            let key = to_u(all[i].0);
            let value = Ambiguity::new(all[i].1, trainer.seen(), &to_u);
            proof {
                assert(pairs.push((key, value@)).drop_last() =~= pairs);
                pairs = pairs.push((key, value@));
                views = views.insert(key, value@);
            }
            contexts.insert(key, value);
            i = i + 1;
        }
        let model = Model { size: trainer.size(), p_unseen: trainer.p_unseen(), contexts };
        proof {
            assert(model@.contexts =~= views);
            assert(builds(trainer@, to_u, keys, pairs));
        }
        model
    }

    /// The same classifier under new keys: every word, those that may mark
    /// an event and those of the contexts, is replaced by what `convert`
    /// makes of it, and all probabilities stay as they are.
    pub fn localize<V: Hash + Eq, UtoV>(&self, convert: UtoV) -> (model: Model<V>) where
        UtoV: Fn(&U) -> V,

        requires
            self.wf(),
            obeys_key_model::<V>(),
            forall|k: &U| call_requires(convert, (k,)),
        ensures
            model.wf(),
            model@.size == self@.size,
            model@.p_unseen == self@.p_unseen,
            is_localized(self@.contexts, convert, model@.contexts),
    {
        let all = entries(&self.contexts);
        let ghost keys = Seq::new(all.len() as nat, |i: int| *all[i].0);
        let mut contexts: ContextMap<V> = HashMap::new();
        let ghost mut pairs: Seq<(V, Evidence<V>)> = Seq::empty();
        let ghost mut views: Map<V, Evidence<V>> = Map::empty();
        let mut i: usize = 0;
        while i < all.len()
            invariant
                0 <= i <= all.len(),
                obeys_key_model::<U>(),
                obeys_key_model::<V>(),
                forall|k: &U| call_requires(convert, (k,)),
                keys == Seq::new(all.len() as nat, |i: int| *all[i].0),
                forall|j: int|
                    0 <= j < all.len() ==> self.contexts@.contains_key(*(#[trigger] all[j]).0)
                        && *all[j].1 == self.contexts@[*all[j].0],
                pairs.len() == i,
                forall|j: int|
                    0 <= j < i ==> call_ensures(convert, (&#[trigger] keys[j],), pairs[j].0)
                        && relocates(self@.contexts[keys[j]], convert, pairs[j].1),
                views == collected(pairs),
                views.dom() == contexts@.dom(),
                forall|k: V| #[trigger] contexts@.contains_key(k) ==> contexts@[k]@ == views[k],
            decreases all.len() - i,
        {
            let key = convert(all[i].0);
            let value = all[i].1.localize(&convert);
            proof {
                assert(pairs.push((key, value@)).drop_last() =~= pairs);
                pairs = pairs.push((key, value@));
                views = views.insert(key, value@);
            }
            contexts.insert(key, value);
            i = i + 1;
        }
        let model = Model { size: self.size, p_unseen: self.p_unseen, contexts };
        proof {
            assert(model@.contexts =~= views);
            assert(relocations(self@.contexts, convert, keys, pairs));
        }
        model
    }

    /// The window before the place `idx` of `v`: the words that stand at
    /// most the width of the window before it.
    pub fn context<'l>(&self, idx: usize, v: &'l [U]) -> (window: &'l [U])
        requires
            idx <= v.len(),
        ensures
            window@ == v@.subrange(
                if idx > self@.size {
                    idx - self@.size
                } else {
                    0
                },
                idx as int,
            ),
            window.len() == if idx <= self@.size {
                idx as nat
            } else {
                self@.size
            },
    {
        let start: usize = if idx > self.size {
            idx - self.size
        } else {
            0
        };
        slice_subrange(v, start, idx)
    }

    /// The two likelihoods of `instance` after the context `context`, if
    /// anything is known of `instance`: for each word of the context what is
    /// known of it on either side, and the probability of an unseen word
    /// where nothing is.
    pub fn log_likelihood(&self, instance: &U, context: &[U]) -> (terms: Option<Likelihood>)
        requires
            self.wf(),
        ensures
            terms is Some <==> self@.contexts.contains_key(*instance),
            terms matches Some(t) ==> {
                &&& t.p_raw == self@.contexts[*instance].p_raw
                &&& t.pos@ == self@.pos_terms(*instance, context@)
                &&& t.neg@ == self@.neg_terms(*instance, context@)
            },
    {
        match self.contexts.get(instance) {
            Some(ctx) => {
                let mut pos: Vec<Ratio> = Vec::new();
                let mut neg: Vec<Ratio> = Vec::new();
                let mut i: usize = 0;
                while i < context.len()
                    invariant
                        0 <= i <= context.len(),
                        obeys_key_model::<U>(),
                        pos.len() == i,
                        neg.len() == i,
                        forall|j: int|
                            0 <= j < i ==> pos[j] == ctx@.pos_term(context@[j], self.p_unseen),
                        forall|j: int|
                            0 <= j < i ==> neg[j] == ctx@.neg_term(context@[j], self.p_unseen),
                    decreases context.len() - i,
                {
                    let evt = &context[i];
                    let p = match ctx.pos_context.get(evt) {
                        Some(p) => *p,
                        None => self.p_unseen,
                    };
                    let n = match ctx.neg_context.get(evt) {
                        Some(n) => *n,
                        None => self.p_unseen,
                    };
                    pos.push(p);
                    neg.push(n);
                    i = i + 1;
                }
                proof {
                    assert(pos@ =~= self@.pos_terms(*instance, context@));
                    assert(neg@ =~= self@.neg_terms(*instance, context@));
                }
                Some(Likelihood { p_raw: ctx.p_raw, pos, neg })
            },
            None => None,
        }
    }

    /// Whether `instance` marks the event after `context`: whether the
    /// likelihood of the event is greater than that of its absence. Where
    /// the two are equal, and where nothing is known of `instance`, the
    /// answer is no.
    pub fn is_instance(&self, instance: &U, context: &[U]) -> (instance_of: bool)
        requires
            self.wf(),
        ensures
            instance_of == self@.favours(*instance, context@),
    {
        match self.log_likelihood(instance, context) {
            Some(likelihood) => likelihood.favours_event(),
            None => false,
        }
    }
}

} // verus!
