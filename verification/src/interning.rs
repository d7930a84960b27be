//! Numbering words in the order in which they first occur.
use crate::word_sequence::{CharClass, TokenKey, Word};
use vstd::prelude::*;

verus! {

/// The distinct texts among `keys`, ordered by where each occurs first.
pub open spec fn distinct(keys: Seq<Seq<char>>) -> Seq<Seq<char>>
    decreases keys.len(),
{
    if keys.len() == 0 {
        Seq::empty()
    } else {
        let before = distinct(keys.drop_last());
        if before.contains(keys.last()) {
            before
        } else {
            before.push(keys.last())
        }
    }
}

/// The canonical forms of the keys of `emitted`, in order.
pub open spec fn canonical_keys<T: TokenKey>(emitted: Seq<(T, CharClass)>) -> Seq<Seq<char>> {
    Seq::new(emitted.len(), |j: int| emitted[j].0.canonical())
}

/// The numbers below `n`.
pub open spec fn words_below(n: nat) -> Set<Word> {
    Set::new(|w: Word| w < n)
}

/// Whether the four tables hold the words `emitted`, numbered in the order in
/// which their canonical forms first occur, starting at 0:
/// `words` lists the number of each word of `emitted` in turn, the same number
/// exactly for the same canonical form; `to_word` finds the number from the
/// canonical form; `from_word` and `classes` give, for each number, the key
/// and the class of the word that first had it.
pub open spec fn interned<T: TokenKey>(
    words: Seq<Word>,
    from_word: Map<Word, T>,
    to_word: Map<Seq<char>, Word>,
    classes: Map<Word, CharClass>,
    emitted: Seq<(T, CharClass)>,
) -> bool {
    let keys = canonical_keys(emitted);
    let vocabulary = distinct(keys);
    &&& words.len() == emitted.len()
    &&& vocabulary.len() <= usize::MAX
    &&& forall|j: int|
        0 <= j < words.len() ==> (#[trigger] words[j]) < vocabulary.len() && vocabulary[words[j] as int]
            == keys[j]
    &&& from_word.dom() == words_below(vocabulary.len())
    &&& classes.dom() == words_below(vocabulary.len())
    &&& to_word.dom() == vocabulary.to_set()
    &&& forall|i: int|
        0 <= i < vocabulary.len() ==> to_word[#[trigger] vocabulary[i]] == i && from_word[i as Word].canonical()
            == vocabulary[i]
    &&& forall|j: int|
        0 <= j < words.len() && !keys.take(j).contains(keys[j]) ==> from_word[#[trigger] words[j]]
            == emitted[j].0 && classes[words[j]] == emitted[j].1
}

/// One more key extends the distinct keys by itself if it is new, and by
/// nothing if it is not.
pub proof fn lemma_distinct_push(keys: Seq<Seq<char>>, key: Seq<char>)
    ensures
        distinct(keys.push(key)) == if distinct(keys).contains(key) {
            distinct(keys)
        } else {
            distinct(keys).push(key)
        },
{
    assert(keys.push(key).drop_last() =~= keys);
}

/// The distinct keys hold exactly what the keys hold.
pub proof fn lemma_distinct_contains(keys: Seq<Seq<char>>, key: Seq<char>)
    ensures
        distinct(keys).contains(key) <==> keys.contains(key),
    decreases keys.len(),
{
    if keys.len() > 0 {
        let before = keys.drop_last();
        let last = keys.last();
        let d_before = distinct(before);
        let d = distinct(keys);
        lemma_distinct_contains(before, key);
        lemma_distinct_contains(before, last);
        if keys.contains(key) {
            let j = choose|j: int| 0 <= j < keys.len() && keys[j] == key;
            if j < keys.len() - 1 {
                assert(before[j] == key);
                let i = choose|i: int| 0 <= i < d_before.len() && d_before[i] == key;
                assert(d[i] == key);
            } else if d_before.contains(last) {
            } else {
                assert(d[d_before.len() as int] == key);
            }
        }
        if d.contains(key) {
            let i = choose|i: int| 0 <= i < d.len() && d[i] == key;
            if i < d_before.len() {
                assert(d_before[i] == key);
                let j = choose|j: int| 0 <= j < before.len() && before[j] == key;
                assert(keys[j] == key);
            } else {
                assert(keys[keys.len() - 1] == key);
            }
        }
    }
}

/// No text occurs twice among the distinct keys.
pub proof fn lemma_distinct_no_duplicates(keys: Seq<Seq<char>>)
    ensures
        distinct(keys).no_duplicates(),
    decreases keys.len(),
{
    if keys.len() > 0 {
        lemma_distinct_no_duplicates(keys.drop_last());
    }
}

/// There are `n` numbers below `n`.
pub proof fn lemma_words_below_len(n: Word)
    ensures
        words_below(n as nat).finite(),
        words_below(n as nat).len() == n,
    decreases n,
{
    if n == 0 {
        assert(words_below(0) =~= Set::<Word>::empty());
    } else {
        let m = (n - 1) as Word;
        lemma_words_below_len(m);
        assert(words_below(n as nat) =~= words_below(m as nat).insert(m));
    }
}

/// Every key that occurs has a first occurrence.
pub proof fn lemma_first_occurrence(keys: Seq<Seq<char>>, key: Seq<char>) -> (j: int)
    requires
        keys.contains(key),
    ensures
        0 <= j < keys.len(),
        keys[j] == key,
        !keys.take(j).contains(key),
    decreases keys.len(),
{
    let before = keys.drop_last();
    if before.contains(key) {
        let j = lemma_first_occurrence(before, key);
        assert(keys.take(j) =~= before.take(j));
        j
    } else {
        let j = keys.len() - 1;
        assert(keys.take(j) =~= before);
        let i = choose|i: int| 0 <= i < keys.len() && keys[i] == key;
        if i < j {
            assert(before[i] == key);
        }
        j
    }
}

/// The distinct keys of the first `i` keys are the first of the distinct keys
/// of all.
pub proof fn lemma_distinct_take(keys: Seq<Seq<char>>, i: int)
    requires
        0 <= i <= keys.len(),
    ensures
        distinct(keys.take(i)).is_prefix_of(distinct(keys)),
    decreases keys.len() - i,
{
    if i == keys.len() {
        assert(keys.take(i) =~= keys);
    } else {
        lemma_distinct_take(keys, i + 1);
        let longer = keys.take(i + 1);
        assert(longer.drop_last() =~= keys.take(i));
        let d = distinct(keys.take(i));
        let d_longer = distinct(longer);
        let all = distinct(keys);
        assert(d.is_prefix_of(d_longer)) by {
            assert(d =~= d_longer.subrange(0, d.len() as int));
        }
        assert(d =~= all.subrange(0, d.len() as int)) by {
            assert forall|k: int| 0 <= k < d.len() implies d[k] == all[k] by {
                assert(d_longer.subrange(0, d.len() as int)[k] == d_longer[k]);
                assert(all.subrange(0, d_longer.len() as int)[k] == all[k]);
            }
        }
    }
}

/// Numbers are given out in the order of first occurrence, starting at 0:
/// the number of a word at the place where it first occurs is the number of
/// distinct words before that place.
pub proof fn lemma_numbered_by_first_occurrence<T: TokenKey>(
    words: Seq<Word>,
    from_word: Map<Word, T>,
    to_word: Map<Seq<char>, Word>,
    classes: Map<Word, CharClass>,
    emitted: Seq<(T, CharClass)>,
    j: int,
)
    requires
        interned(words, from_word, to_word, classes, emitted),
        0 <= j < words.len(),
        !canonical_keys(emitted).take(j).contains(canonical_keys(emitted)[j]),
    ensures
        words[j] == distinct(canonical_keys(emitted).take(j)).len(),
{
    let keys = canonical_keys(emitted);
    let all = distinct(keys);
    let before = distinct(keys.take(j));
    let upto = distinct(keys.take(j + 1));
    lemma_distinct_take(keys, j + 1);
    assert(keys.take(j + 1).drop_last() =~= keys.take(j));
    assert(keys.take(j + 1).last() == keys[j]);
    lemma_distinct_contains(keys.take(j), keys[j]);
    assert(upto == before.push(keys[j]));
    assert(all.subrange(0, upto.len() as int)[before.len() as int] == upto[before.len() as int]);
    assert(all[before.len() as int] == keys[j]);
    lemma_distinct_no_duplicates(keys);
    assert(all[words[j] as int] == keys[j]);
}

/// Entering one more word, under the number of its canonical form or else
/// under the next free number, keeps the tables in step with the words
/// entered.
pub proof fn lemma_interned_push<T: TokenKey>(
    words: Seq<Word>,
    from_word: Map<Word, T>,
    to_word: Map<Seq<char>, Word>,
    classes: Map<Word, CharClass>,
    emitted: Seq<(T, CharClass)>,
    word: T,
    class: CharClass,
)
    requires
        interned(words, from_word, to_word, classes, emitted),
    ensures
        from_word.dom().finite(),
        from_word.len() == distinct(canonical_keys(emitted)).len(),
        to_word.contains_key(word.canonical()) ==> interned(
            words.push(to_word[word.canonical()]),
            from_word,
            to_word,
            classes,
            emitted.push((word, class)),
        ),
        !to_word.contains_key(word.canonical()) && from_word.len() < usize::MAX ==> interned(
            words.push(from_word.len() as Word),
            from_word.insert(from_word.len() as Word, word),
            to_word.insert(word.canonical(), from_word.len() as Word),
            classes.insert(from_word.len() as Word, class),
            emitted.push((word, class)),
        ),
{
    let keys = canonical_keys(emitted);
    let vocabulary = distinct(keys);
    let key = word.canonical();
    let emitted2 = emitted.push((word, class));
    let keys2 = canonical_keys(emitted2);
    let vocabulary2 = distinct(keys2);
    assert(keys2 =~= keys.push(key));
    lemma_distinct_push(keys, key);
    lemma_distinct_contains(keys, key);
    lemma_distinct_no_duplicates(keys);
    lemma_distinct_no_duplicates(keys2);
    lemma_words_below_len(vocabulary.len() as Word);
    assert forall|j: int| 0 <= j < keys.len() implies #[trigger] keys2.take(j) == keys.take(j) by {
        assert(keys2.take(j) =~= keys.take(j));
    }
    assert(keys2.take(keys.len() as int) =~= keys);
    if to_word.contains_key(key) {
        assert(vocabulary.to_set().contains(key));
        let w = to_word[key];
        let i = choose|i: int| 0 <= i < vocabulary.len() && vocabulary[i] == key;
        assert(to_word[vocabulary[i]] == i);
        assert(vocabulary2 == vocabulary);
        let words2 = words.push(w);
        assert forall|j: int| 0 <= j < words2.len() implies (#[trigger] words2[j])
            < vocabulary2.len() && vocabulary2[words2[j] as int] == keys2[j] by {
            if j < words.len() {
                assert(words2[j] == words[j]);
            }
        }
        assert forall|j: int|
            0 <= j < words2.len() && !keys2.take(j).contains(keys2[j]) implies from_word[#[trigger] words2[j]]
            == emitted2[j].0 && classes[words2[j]] == emitted2[j].1 by {
            if j < words.len() {
                assert(words2[j] == words[j]);
                assert(keys2.take(j) == keys.take(j));
            }
        }
        assert(interned(words2, from_word, to_word, classes, emitted2));
    } else if from_word.len() < usize::MAX {
        let n = from_word.len() as Word;
        assert(!vocabulary.to_set().contains(key));
        assert(!vocabulary.contains(key));
        assert(vocabulary2 == vocabulary.push(key));
        let words2 = words.push(n);
        let from_word2 = from_word.insert(n, word);
        let to_word2 = to_word.insert(key, n);
        let classes2 = classes.insert(n, class);
        assert(words_below(vocabulary2.len()) =~= words_below(vocabulary.len()).insert(n));
        assert(vocabulary2.to_set() =~= vocabulary.to_set().insert(key)) by {
            assert forall|k: Seq<char>| vocabulary2.to_set().contains(k) implies vocabulary.to_set().insert(
                key,
            ).contains(k) by {
                let i = choose|i: int| 0 <= i < vocabulary2.len() && vocabulary2[i] == k;
                if i < vocabulary.len() {
                    assert(vocabulary[i] == k);
                }
            }
            assert forall|k: Seq<char>| vocabulary.to_set().insert(key).contains(
                k,
            ) implies vocabulary2.to_set().contains(k) by {
                if k == key {
                    assert(vocabulary2[vocabulary.len() as int] == k);
                } else {
                    let i = choose|i: int| 0 <= i < vocabulary.len() && vocabulary[i] == k;
                    assert(vocabulary2[i] == k);
                }
            }
        }
        assert forall|j: int| 0 <= j < words2.len() implies (#[trigger] words2[j])
            < vocabulary2.len() && vocabulary2[words2[j] as int] == keys2[j] by {
            if j < words.len() {
                assert(words2[j] == words[j]);
            }
        }
        assert forall|i: int| 0 <= i < vocabulary2.len() implies to_word2[#[trigger] vocabulary2[i]]
            == i && from_word2[i as Word].canonical() == vocabulary2[i] by {
            if i < vocabulary.len() {
                assert(vocabulary[i] != key);
                assert(to_word[vocabulary[i]] == i);
            }
        }
        assert forall|j: int|
            0 <= j < words2.len() && !keys2.take(j).contains(keys2[j]) implies from_word2[#[trigger] words2[j]]
            == emitted2[j].0 && classes2[words2[j]] == emitted2[j].1 by {
            if j < words.len() {
                assert(words2[j] == words[j]);
                assert(keys2.take(j) == keys.take(j));
            }
        }
        assert(interned(words2, from_word2, to_word2, classes2, emitted2));
    }
}

} // verus!
