//! Counting the words of a text and the pairs of neighbouring words.
use crate::sample::Sample;
use crate::word_sequence::{alphabetic, Word};
use vstd::multiset::*;
use vstd::prelude::*;
use vstd::std_specs::hash::*;
use vstd::string::*;

verus! {

broadcast use {vstd::std_specs::hash::group_hash_axioms, vstd::multiset::group_multiset_axioms};

/// Whether some character of `text` is alphabetic.
pub open spec fn has_alphabetic(text: Seq<char>) -> bool {
    exists|i: int| 0 <= i < text.len() && alphabetic(#[trigger] text[i])
}

/// Filter for words containing any alphabetic characters.
pub fn any_alphabetic(s: &str) -> (any: bool)
    ensures
        any == has_alphabetic(s@),
{
    for ch in it: s.chars()
        invariant
            it.seq() == s@,
            forall|i: int| 0 <= i < it.index() ==> !alphabetic(#[trigger] s@[i]),
    {
        if ch.is_alphabetic() {
            assert(alphabetic(s@[it.index() as int]));
            return true;
        }
    }
    false
}

/// The pairs of neighbours in `words`, from left to right.
pub open spec fn bigrams(words: Seq<Word>) -> Seq<(Word, Word)> {
    if words.len() == 0 {
        Seq::empty()
    } else {
        Seq::new((words.len() - 1) as nat, |i: int| (words[i], words[i + 1]))
    }
}

/// The sample of the words of `words`.
pub fn word_samples(words: &[Word]) -> (sample: Sample<Word>)
    ensures
        sample.wf(),
        sample@ == words@.to_multiset(),
{
    let mut sample: Sample<Word> = Sample::new();
    let mut i: usize = 0;
    proof {
        words@.take(0).to_multiset_ensures();
        assert(words@.take(0).to_multiset() =~= Multiset::<Word>::empty());
    }
    while i < words.len()
        invariant
            0 <= i <= words.len(),
            sample.wf(),
            sample.total == i,
            sample@ == words@.take(i as int).to_multiset(),
        decreases words.len() - i,
    {
        proof {
            words@.take(i as int).to_multiset_ensures();
            assert(words@.take(i + 1) =~= words@.take(i as int).push(words@[i as int]));
        }
        sample.add(words[i]);
        i = i + 1;
    }
    proof {
        assert(words@.take(words.len() as int) =~= words@);
    }
    sample
}

/// The sample of the pairs of neighbours in `words`.
pub fn bigram_samples(words: &[Word]) -> (sample: Sample<(Word, Word)>)
    requires
        obeys_key_model::<(Word, Word)>(),
    ensures
        sample.wf(),
        sample@ == bigrams(words@).to_multiset(),
{
    let mut sample: Sample<(Word, Word)> = Sample::new();
    let ghost pairs = bigrams(words@);
    let mut i: usize = 1;
    proof {
        pairs.take(0).to_multiset_ensures();
        assert(pairs.take(0).to_multiset() =~= Multiset::<(Word, Word)>::empty());
    }
    while i < words.len()
        invariant
            1 <= i,
            words.len() > 0 ==> i <= words.len(),
            words.len() == 0 ==> i == 1,
            pairs == bigrams(words@),
            sample.wf(),
            sample.total == i - 1,
            sample@ == pairs.take(i - 1).to_multiset(),
        decreases words.len() - i,
    {
        proof {
            pairs.take(i - 1).to_multiset_ensures();
            assert(pairs.take(i as int) =~= pairs.take(i - 1).push(pairs[i - 1]));
        }
        sample.add((words[i - 1], words[i]));
        i = i + 1;
    }
    proof {
        assert(pairs.take(i - 1) =~= pairs);
    }
    sample
}

} // verus!
