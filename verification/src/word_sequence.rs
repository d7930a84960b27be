//! Splitting a text into words and giving each distinct word a number.
use crate::interning::{
    canonical_keys,
    distinct,
    interned,
    lemma_distinct_contains,
    lemma_distinct_no_duplicates,
    lemma_first_occurrence,
    lemma_interned_push,
    lemma_words_below_len,
    words_below,
};
use crate::runs::{classes_of, runs, Run};
use crate::text::{byte_offset, lemma_offset_ends, lemma_offset_monotonic, lemma_offset_step, slice};
use std::collections::HashMap;
use vstd::hash_map::StringHashMap;
use vstd::prelude::*;
use vstd::std_specs::hash::*;
use vstd::string::*;

verus! {

broadcast use vstd::std_specs::hash::group_hash_axioms;

/// The class of a character. A word is a maximal run of characters of one class.
#[derive(PartialEq, Eq, Structural, Debug, Clone, Copy)]
pub enum CharClass {
    Alphabetic,
    Numeric,
    Whitespace,
    Control,
    Other,
}

/// What `char::is_alphabetic` answers for `c`.
pub uninterp spec fn alphabetic(c: char) -> bool;

/// What `char::is_numeric` answers for `c`.
pub uninterp spec fn numeric(c: char) -> bool;

/// What `char::is_whitespace` answers for `c`.
pub uninterp spec fn whitespace(c: char) -> bool;

/// What `char::is_control` answers for `c`.
pub uninterp spec fn control(c: char) -> bool;

/// `char::is_alphabetic` looks the character up in the Unicode tables that the
/// standard library was built with: its answer depends on the character alone.
pub assume_specification[ char::is_alphabetic ](c: char) -> (b: bool)
    ensures
        b == alphabetic(c),
;

/// `char::is_numeric` looks the character up in the Unicode tables that the
/// standard library was built with: its answer depends on the character alone.
pub assume_specification[ char::is_numeric ](c: char) -> (b: bool)
    ensures
        b == numeric(c),
;

/// `char::is_whitespace` looks the character up in the Unicode tables that the
/// standard library was built with: its answer depends on the character alone.
pub assume_specification[ char::is_whitespace ](c: char) -> (b: bool)
    ensures
        b == whitespace(c),
;

/// `char::is_control` looks the character up in the Unicode tables that the
/// standard library was built with: its answer depends on the character alone.
pub assume_specification[ char::is_control ](c: char) -> (b: bool)
    ensures
        b == control(c),
;

impl CharClass {
    /// The class of a character with the given properties: the first that
    /// holds, of alphabetic, numeric, whitespace and control, decides.
    pub open spec fn of_properties(
        alphabetic: bool,
        numeric: bool,
        whitespace: bool,
        control: bool,
    ) -> CharClass {
        if alphabetic {
            CharClass::Alphabetic
        } else if numeric {
            CharClass::Numeric
        } else if whitespace {
            CharClass::Whitespace
        } else if control {
            CharClass::Control
        } else {
            CharClass::Other
        }
    }

    /// The class of the character `c`.
    pub open spec fn of(c: char) -> CharClass {
        Self::of_properties(alphabetic(c), numeric(c), whitespace(c), control(c))
    }

    /// Decides the class of a character from its four properties.
    pub fn from_properties(alphabetic: bool, numeric: bool, whitespace: bool, control: bool) -> (class:
        CharClass)
        ensures
            class == Self::of_properties(alphabetic, numeric, whitespace, control),
    {
        if alphabetic {
            CharClass::Alphabetic
        } else if numeric {
            CharClass::Numeric
        } else if whitespace {
            CharClass::Whitespace
        } else if control {
            CharClass::Control
        } else {
            CharClass::Other
        }
    }

    /// The class of `ch`.
    pub fn classify(ch: char) -> (class: CharClass)
        ensures
            class == CharClass::of(ch),
    {
        Self::from_properties(
            ch.is_alphabetic(),
            ch.is_numeric(),
            ch.is_whitespace(),
            ch.is_control(),
        )
    }
}

/// The number that stands for a word.
pub type Word = usize;

/// From a word's canonical form to its number.
pub type ToWord = StringHashMap<Word>;

/// From a word's number to the key it was first seen as.
pub type FromWord<T> = HashMap<Word, T>;

/// From a word's number to the class of its characters.
pub type ClassMap = HashMap<Word, CharClass>;

/// A key under which words are told apart: two keys name the same word
/// exactly when their canonical forms are the same text.
pub trait TokenKey {
    /// The canonical form of the key.
    spec fn canonical(&self) -> Seq<char>;

    /// The canonical form of the key, as a string of its own.
    fn canonical_string(&self) -> (s: String)
        ensures
            s@ == self.canonical(),
    ;
}

impl<'a> TokenKey for &'a str {
    open spec fn canonical(&self) -> Seq<char> {
        self@
    }

    fn canonical_string(&self) -> (s: String) {
        String::from_str(self)
    }
}

impl TokenKey for String {
    open spec fn canonical(&self) -> Seq<char> {
        self@
    }

    fn canonical_string(&self) -> (s: String) {
        self.clone()
    }
}

/// Enters one word into the three maps, and gives its number: the number
/// that its canonical form already has, or else the next free number, which
/// is the number of entries of `from_word`; a new number gets `word` as its
/// key and `class` as its class.
pub fn enter<T: TokenKey>(
    word: T,
    class: CharClass,
    from_word: &mut FromWord<T>,
    to_word: &mut ToWord,
    classes: &mut ClassMap,
) -> (id: Word)
    ensures
        old(to_word)@.contains_key(word.canonical()) ==> {
            &&& id == old(to_word)@[word.canonical()]
            &&& final(from_word)@ == old(from_word)@
            &&& final(to_word)@ == old(to_word)@
            &&& final(classes)@ == old(classes)@
        },
        !old(to_word)@.contains_key(word.canonical()) ==> {
            &&& id == old(from_word)@.len()
            &&& final(from_word)@ == old(from_word)@.insert(id, word)
            &&& final(to_word)@ == old(to_word)@.insert(word.canonical(), id)
            &&& final(classes)@ == old(classes)@.insert(id, class)
        },
{
    let key = word.canonical_string();
    let known = match to_word.get(key.as_str()) {
        Some(v) => Some(*v),
        None => None,
    };
    match known {
        Some(v) => v,
        None => {
            let n = from_word.len();
            from_word.insert(n, word);
            classes.insert(n, class);
            to_word.insert(key, n);
            n
        },
    }
}

/// Enters one word into the four tables: under the number that its canonical
/// form already has, or else under the next free number, which is the number
/// of entries of `from_word`; a new number gets `word` as its key and `class`
/// as its class. The number is appended to `words`.
pub fn updates<T: TokenKey>(
    word: T,
    class: CharClass,
    words: &mut Vec<Word>,
    from_word: &mut FromWord<T>,
    to_word: &mut ToWord,
    classes: &mut ClassMap,
)
    ensures
        old(to_word)@.contains_key(word.canonical()) ==> {
            &&& final(words)@ == old(words)@.push(old(to_word)@[word.canonical()])
            &&& final(from_word)@ == old(from_word)@
            &&& final(to_word)@ == old(to_word)@
            &&& final(classes)@ == old(classes)@
        },
        !old(to_word)@.contains_key(word.canonical()) ==> {
            let next = old(from_word)@.len() as Word;
            &&& final(words)@ == old(words)@.push(next)
            &&& final(from_word)@ == old(from_word)@.insert(next, word)
            &&& final(to_word)@ == old(to_word)@.insert(word.canonical(), next)
            &&& final(classes)@ == old(classes)@.insert(next, class)
        },
        forall|emitted: Seq<(T, CharClass)>| #[trigger]
            interned(old(words)@, old(from_word)@, old(to_word)@, old(classes)@, emitted)
                ==> interned(
                final(words)@,
                final(from_word)@,
                final(to_word)@,
                final(classes)@,
                emitted.push((word, class)),
            ),
{
    let ghost entry = (word, class);
    let id = enter(word, class, from_word, to_word, classes);
    words.push(id);
    proof {
        assert forall|emitted: Seq<(T, CharClass)>| #[trigger]
            interned(
                old(words)@,
                old(from_word)@,
                old(to_word)@,
                old(classes)@,
                emitted,
            ) implies interned(
            words@,
            from_word@,
            to_word@,
            classes@,
            emitted.push(entry),
        ) by {
            assert(spec_hash_map_len(from_word) == from_word@.len());
            lemma_interned_push(
                old(words)@,
                old(from_word)@,
                old(to_word)@,
                old(classes)@,
                emitted,
                entry.0,
                class,
            );
        }
    }
}

/// Whether `pred` may give `answer` when asked about a word that reads `word`.
pub open spec fn answers<'l, P: Fn(&'l str) -> bool>(pred: P, word: Seq<char>, answer: bool) -> bool {
    exists|s: &'l str| s@ == word && #[trigger] call_ensures(pred, (s,), answer)
}

/// Whether `trans` may give `key` for a word that reads `word`.
pub open spec fn yields<'l, T, F: Fn(&'l str) -> T>(trans: F, word: Seq<char>, key: T) -> bool {
    exists|s: &'l str| s@ == word && #[trigger] call_ensures(trans, (s,), key)
}

/// Whether `emitted` is what a pass over `runs` hands on: runs of whitespace
/// are skipped; of every other run, in order, `pred` is asked about its text;
/// where it says yes, `trans` gives the key, which is emitted with the class
/// of the run.
pub open spec fn tokenizes<'l, T, F: Fn(&'l str) -> T, P: Fn(&'l str) -> bool>(
    text: Seq<char>,
    runs: Seq<Run>,
    trans: F,
    pred: P,
    emitted: Seq<(T, CharClass)>,
) -> bool
    decreases runs.len(),
{
    if runs.len() == 0 {
        emitted.len() == 0
    } else {
        let run = runs.last();
        let word = text.subrange(run.start, run.end);
        if run.class == CharClass::Whitespace {
            tokenizes(text, runs.drop_last(), trans, pred, emitted)
        } else {
            ||| answers(pred, word, false) && tokenizes(text, runs.drop_last(), trans, pred, emitted)
            ||| emitted.len() > 0 && answers(pred, word, true) && yields(trans, word, emitted.last().0)
                && emitted.last().1 == run.class && tokenizes(
                text,
                runs.drop_last(),
                trans,
                pred,
                emitted.drop_last(),
            )
        }
    }
}

/// A pass over no runs hands on nothing.
pub proof fn lemma_tokenizes_none<'l, T, F: Fn(&'l str) -> T, P: Fn(&'l str) -> bool>(
    text: Seq<char>,
    runs: Seq<Run>,
    trans: F,
    pred: P,
    emitted: Seq<(T, CharClass)>,
)
    requires
        tokenizes(text, runs, trans, pred, emitted),
        runs.len() == 0,
    ensures
        emitted.len() == 0,
{
}

/// What a pass hands on for its last run: nothing, if the run is whitespace
/// or `pred` says no to its text; and otherwise, last of all, the key that
/// `trans` gives for its text, with its class.
pub proof fn lemma_tokenizes_last<'l, T, F: Fn(&'l str) -> T, P: Fn(&'l str) -> bool>(
    text: Seq<char>,
    runs: Seq<Run>,
    trans: F,
    pred: P,
    emitted: Seq<(T, CharClass)>,
)
    requires
        tokenizes(text, runs, trans, pred, emitted),
        runs.len() > 0,
    ensures
        ({
            let run = runs.last();
            let word = text.subrange(run.start, run.end);
            let before = runs.drop_last();
            if run.class == CharClass::Whitespace {
                tokenizes(text, before, trans, pred, emitted)
            } else {
                ||| answers(pred, word, false) && tokenizes(text, before, trans, pred, emitted)
                ||| emitted.len() > 0 && answers(pred, word, true) && yields(
                    trans,
                    word,
                    emitted.last().0,
                ) && emitted.last().1 == run.class && tokenizes(
                    text,
                    before,
                    trans,
                    pred,
                    emitted.drop_last(),
                )
            }
        }),
{
}

/// Whether `pred` answers by the text of a word alone.
pub open spec fn decides_by_text<'l, P: Fn(&'l str) -> bool>(pred: P) -> bool {
    forall|s1: &'l str, s2: &'l str, b1: bool, b2: bool|
        s1@ == s2@ && #[trigger] call_ensures(pred, (s1,), b1) && #[trigger] call_ensures(
            pred,
            (s2,),
            b2,
        ) ==> b1 == b2
}

/// Whether the canonical form of the key that `trans` gives depends on the
/// text of the word alone.
pub open spec fn keys_by_text<'l, T: TokenKey, F: Fn(&'l str) -> T>(trans: F) -> bool {
    forall|s1: &'l str, s2: &'l str, k1: T, k2: T|
        s1@ == s2@ && #[trigger] call_ensures(trans, (s1,), k1) && #[trigger] call_ensures(
            trans,
            (s2,),
            k2,
        ) ==> k1.canonical() == k2.canonical()
}

/// With a predicate and a transform that go by the text of a word alone, two
/// passes over the same runs emit words with the same canonical forms and
/// classes.
pub proof fn lemma_tokenizes_deterministic<'l, T, F, P>(
    text: Seq<char>,
    runs: Seq<Run>,
    trans: F,
    pred: P,
    first: Seq<(T, CharClass)>,
    second: Seq<(T, CharClass)>,
) where T: TokenKey, F: Fn(&'l str) -> T, P: Fn(&'l str) -> bool
    requires
        decides_by_text(pred),
        keys_by_text(trans),
        tokenizes(text, runs, trans, pred, first),
        tokenizes(text, runs, trans, pred, second),
    ensures
        first.len() == second.len(),
        canonical_keys(first) == canonical_keys(second),
        forall|j: int| 0 <= j < first.len() ==> first[j].1 == second[j].1,
    decreases runs.len(),
{
    if runs.len() == 0 {
        assert(canonical_keys(first) =~= canonical_keys(second));
    } else {
        let run = runs.last();
        let word = text.subrange(run.start, run.end);
        let rest = runs.drop_last();
        if run.class == CharClass::Whitespace {
            lemma_tokenizes_deterministic(text, rest, trans, pred, first, second);
        } else {
            let first_no = answers(pred, word, false) && tokenizes(text, rest, trans, pred, first);
            let second_no = answers(pred, word, false) && tokenizes(
                text,
                rest,
                trans,
                pred,
                second,
            );
            if first_no && second_no {
                lemma_tokenizes_deterministic(text, rest, trans, pred, first, second);
            } else if !first_no && !second_no {
                lemma_tokenizes_deterministic(
                    text,
                    rest,
                    trans,
                    pred,
                    first.drop_last(),
                    second.drop_last(),
                );
                let k1 = canonical_keys(first);
                let k2 = canonical_keys(second);
                assert(k1.drop_last() =~= canonical_keys(first.drop_last()));
                assert(k2.drop_last() =~= canonical_keys(second.drop_last()));
                assert(k1.last() == k2.last());
                assert(k1 =~= k1.drop_last().push(k1.last()));
                assert(k2 =~= k2.drop_last().push(k2.last()));
                assert forall|j: int| 0 <= j < first.len() implies first[j].1 == second[j].1 by {
                    if j < first.len() - 1 {
                        assert(first.drop_last()[j] == first[j]);
                        assert(second.drop_last()[j] == second[j]);
                    }
                }
            } else {
                // The predicate would have said both yes and no of one text.
                assert(answers(pred, word, false));
                assert(answers(pred, word, true));
                assert(false);
            }
        }
    }
}

/// Tokenizing is deterministic: with a predicate and a transform that go by
/// the text of a word alone, any two results for the same text hold the same
/// sequence of numbers, find the same number from every canonical form, and
/// give every number the same class and a key of the same canonical form.
pub proof fn lemma_tokenizing_is_deterministic<'l, T, F, P>(
    text: Seq<char>,
    trans: F,
    pred: P,
    first: WordSequence<T>,
    second: WordSequence<T>,
) where T: TokenKey, F: Fn(&'l str) -> T, P: Fn(&'l str) -> bool
    requires
        decides_by_text(pred),
        keys_by_text(trans),
        exists|emitted: Seq<(T, CharClass)>|
            tokenizes(text, runs(text), trans, pred, emitted) && #[trigger] first.interns(emitted),
        exists|emitted: Seq<(T, CharClass)>|
            tokenizes(text, runs(text), trans, pred, emitted) && #[trigger] second.interns(emitted),
    ensures
        first.words@ == second.words@,
        first.to_word@ == second.to_word@,
        first.class_of_word@ == second.class_of_word@,
        first.from_word@.dom() == second.from_word@.dom(),
        forall|w: Word| #[trigger]
            first.from_word@.contains_key(w) ==> first.from_word@[w].canonical()
                == second.from_word@[w].canonical(),
{
    let e1 = choose|emitted: Seq<(T, CharClass)>|
        tokenizes(text, runs(text), trans, pred, emitted) && #[trigger] first.interns(emitted);
    let e2 = choose|emitted: Seq<(T, CharClass)>|
        tokenizes(text, runs(text), trans, pred, emitted) && #[trigger] second.interns(emitted);
    lemma_tokenizes_deterministic(text, runs(text), trans, pred, e1, e2);
    let keys = canonical_keys(e1);
    let vocabulary = distinct(keys);
    lemma_distinct_no_duplicates(keys);
    assert(first.words@ =~= second.words@) by {
        assert forall|j: int| 0 <= j < first.words@.len() implies first.words@[j]
            == second.words@[j] by {
            assert(vocabulary[first.words@[j] as int] == keys[j]);
            assert(vocabulary[second.words@[j] as int] == keys[j]);
        }
    }
    assert(first.to_word@ =~= second.to_word@) by {
        assert forall|k: Seq<char>| first.to_word@.contains_key(k) implies #[trigger] first.to_word@[k]
            == second.to_word@[k] by {
            assert(vocabulary.to_set().contains(k));
            let i = choose|i: int| 0 <= i < vocabulary.len() && vocabulary[i] == k;
            assert(first.to_word@[vocabulary[i]] == i);
            assert(second.to_word@[vocabulary[i]] == i);
        }
    }
    assert(first.class_of_word@ =~= second.class_of_word@) by {
        assert forall|w: Word| first.class_of_word@.contains_key(w) implies #[trigger] first.class_of_word@[w]
            == second.class_of_word@[w] by {
            let k = vocabulary[w as int];
            lemma_distinct_contains(keys, k);
            let j = lemma_first_occurrence(keys, k);
            assert(vocabulary[first.words@[j] as int] == keys[j]);
            assert(first.words@[j] == w);
            assert(second.words@[j] == w);
        }
    }
    assert forall|w: Word| #[trigger] first.from_word@.contains_key(w) implies first.from_word@[w].canonical()
        == second.from_word@[w].canonical() by {
        assert(first.from_word@[(w as int) as Word].canonical() == vocabulary[w as int]);
        assert(second.from_word@[(w as int) as Word].canonical() == vocabulary[w as int]);
    }
}

/// Closes the run `run` of `text`, which lies at the bytes `from..to`: unless it
/// is whitespace, asks `pred` about its text and, on a yes, enters the key
/// that `trans` gives for it.
fn close_run<'l, T, F, P>(
    text: &'l str,
    from: usize,
    to: usize,
    class: CharClass,
    trans: &F,
    pred: &P,
    words: &mut Vec<Word>,
    from_word: &mut FromWord<T>,
    to_word: &mut ToWord,
    classes: &mut ClassMap,
    Ghost(run): Ghost<Run>,
    Ghost(done): Ghost<Seq<Run>>,
    Ghost(emitted): Ghost<Seq<(T, CharClass)>>,
) -> (out: Ghost<Seq<(T, CharClass)>>) where
    T: TokenKey,
    F: Fn(&'l str) -> T,
    P: Fn(&'l str) -> bool,

    requires
        forall|s: &'l str| call_requires(*trans, (s,)),
        forall|s: &'l str| call_requires(*pred, (s,)),
        0 <= run.start <= run.end <= text@.len(),
        run.class == class,
        from == byte_offset(text@, run.start),
        to == byte_offset(text@, run.end),
        tokenizes(text@, done, *trans, *pred, emitted),
        interned(old(words)@, old(from_word)@, old(to_word)@, old(classes)@, emitted),
    ensures
        tokenizes(text@, done.push(run), *trans, *pred, out@),
        interned(final(words)@, final(from_word)@, final(to_word)@, final(classes)@, out@),
{
    let ghost all = done.push(run);
    assert(all.drop_last() =~= done);
    if class != CharClass::Whitespace {
        let word = slice(text, from, to, Ghost(run.start), Ghost(run.end));
        if pred(word) {
            let key = trans(word);
            let ghost out = emitted.push((key, class));
            assert(out.drop_last() =~= emitted);
            updates(key, class, words, from_word, to_word, classes);
            return Ghost(out);
        }
    }
    Ghost(emitted)
}

/// Splits `text` into words and numbers them.
///
/// A word is a maximal run of characters of one class that is not whitespace
/// and of which `pred` approves. `trans` gives the key of a word. Words whose
/// keys have the same canonical form are the same word; the words are
/// numbered from 0 in the order in which they first occur. What comes back
/// holds the numbers of the words of `text` in order, and for each number the
/// key and the class of the word that first had it.
pub fn initialize_word_sequence<'l, T, F, P>(text: &'l str, trans: F, pred: P) -> (ws: WordSequence<
    T,
>) where T: TokenKey, F: Fn(&'l str) -> T, P: Fn(&'l str) -> bool
    requires
        forall|s: &'l str| call_requires(trans, (s,)),
        forall|s: &'l str| call_requires(pred, (s,)),
    ensures
        ws.wf(),
        exists|emitted: Seq<(T, CharClass)>|
            tokenizes(text@, runs(text@), trans, pred, emitted) && #[trigger] ws.interns(emitted),
{
    let mut from_word: FromWord<T> = HashMap::new();
    let mut to_word: ToWord = StringHashMap::new();
    let mut classes: ClassMap = HashMap::new();
    let mut words: Vec<Word> = Vec::new();
    let mut word_start: usize = 0;
    let mut last_cls = CharClass::Whitespace;
    let mut pos: usize = 0;
    let byte_len = text.as_bytes().len();
    let ghost mut emitted: Seq<(T, CharClass)> = Seq::empty();
    let ghost mut start: int = 0;
    proof {
        lemma_offset_ends(text@);
        assert(words_below(0) =~= Set::<Word>::empty());
        assert(distinct(canonical_keys(emitted)).to_set() =~= Set::<Seq<char>>::empty());
    }
    for ch in it: text.chars()
        invariant
            forall|s: &'l str| call_requires(trans, (s,)),
            forall|s: &'l str| call_requires(pred, (s,)),
            it.seq() == text@,
            byte_len == byte_offset(text@, text@.len() as int),
            pos == byte_offset(text@, it.index() as int),
            word_start == byte_offset(text@, start),
            0 <= start <= it.index() <= text@.len(),
            it.index() == 0 ==> last_cls == CharClass::Whitespace && emitted.len() == 0,
            it.index() > 0 ==> {
                let rs = runs(text@.take(it.index() as int));
                &&& rs.len() > 0
                &&& rs.last() == Run { start, end: it.index() as int, class: last_cls }
                &&& tokenizes(text@, rs.drop_last(), trans, pred, emitted)
            },
            interned(words@, from_word@, to_word@, classes@, emitted),
    {
        let ghost i = it.index() as int;
        let ghost rs = runs(text@.take(i));
        proof {
            lemma_offset_step(text@, i);
            lemma_offset_monotonic(text@, i + 1, text@.len() as int);
            lemma_offset_monotonic(text@, 0, i);
            assert(classes_of(text@.take(i + 1)).drop_last() =~= classes_of(text@.take(i)));
            assert(classes_of(text@.take(i + 1)).last() == CharClass::of(ch));
        }
        let cls = CharClass::classify(ch);
        if pos == 0 {
            last_cls = cls;
            proof {
                start = 0;
                assert(i == 0);
            }
        } else if last_cls != cls {
            let out = close_run(
                text,
                word_start,
                pos,
                last_cls,
                &trans,
                &pred,
                &mut words,
                &mut from_word,
                &mut to_word,
                &mut classes,
                Ghost(rs.last()),
                Ghost(rs.drop_last()),
                Ghost(emitted),
            );
            word_start = pos;
            last_cls = cls;
            proof {
                assert(rs.drop_last().push(rs.last()) =~= rs);
                emitted = out@;
                start = i;
                assert(runs(text@.take(i + 1)).drop_last() =~= rs);
            }
        } else {
            proof {
                assert(runs(text@.take(i + 1)).drop_last() =~= rs.drop_last());
            }
        }
        pos = pos + ch.len_utf8();
    }
    proof {
        assert(text@.take(text@.len() as int) =~= text@);
    }
    if pos != 0 {
        let ghost rs = runs(text@);
        let out = close_run(
            text,
            word_start,
            pos,
            last_cls,
            &trans,
            &pred,
            &mut words,
            &mut from_word,
            &mut to_word,
            &mut classes,
            Ghost(rs.last()),
            Ghost(rs.drop_last()),
            Ghost(emitted),
        );
        proof {
            assert(rs.drop_last().push(rs.last()) =~= rs);
            emitted = out@;
        }
    } else {
        proof {
            lemma_offset_monotonic(text@, 0, text@.len() as int);
        }
    }
    let ws = WordSequence { to_word, from_word, class_of_word: classes, words };
    proof {
        assert(ws.interns(emitted));
        ws.lemma_interns_wf(emitted);
    }
    ws
}

/// The words of a text: each distinct word has a number, and the text is the
/// sequence of the numbers of its words.
pub struct WordSequence<T: TokenKey> {
    pub to_word: ToWord,
    pub from_word: FromWord<T>,
    pub class_of_word: ClassMap,
    pub words: Vec<Word>,
}

impl<T: TokenKey> WordSequence<T> {
    /// Whether this holds the words `emitted`, numbered in the order in which
    /// they first occur.
    pub open spec fn interns(&self, emitted: Seq<(T, CharClass)>) -> bool {
        interned(self.words@, self.from_word@, self.to_word@, self.class_of_word@, emitted)
    }

    /// The numbers in use are those below their count; each has a key and a
    /// class; the canonical form of the key of a number leads back to that
    /// number, and nothing else leads to any number; the sequence holds
    /// numbers in use only.
    pub open spec fn wf(&self) -> bool {
        &&& self.from_word@.dom() == words_below(self.from_word@.len())
        &&& self.class_of_word@.dom() == self.from_word@.dom()
        &&& forall|w: Word| #[trigger]
            self.from_word@.contains_key(w) ==> self.to_word@.contains_key(
                self.from_word@[w].canonical(),
            ) && self.to_word@[self.from_word@[w].canonical()] == w
        &&& forall|k: Seq<char>| #[trigger]
            self.to_word@.contains_key(k) ==> self.from_word@.contains_key(self.to_word@[k])
                && self.from_word@[self.to_word@[k]].canonical() == k
        &&& forall|j: int|
            0 <= j < self.words@.len() ==> self.from_word@.contains_key(#[trigger] self.words@[j])
    }

    /// What holds words numbered in the order of their first occurrence is
    /// well formed.
    pub proof fn lemma_interns_wf(&self, emitted: Seq<(T, CharClass)>)
        requires
            self.interns(emitted),
        ensures
            self.wf(),
    {
        let keys = canonical_keys(emitted);
        let vocabulary = distinct(keys);
        lemma_words_below_len(vocabulary.len() as Word);
        lemma_distinct_no_duplicates(keys);
        assert forall|w: Word| #[trigger] self.from_word@.contains_key(w) implies self.to_word@.contains_key(
            self.from_word@[w].canonical(),
        ) && self.to_word@[self.from_word@[w].canonical()] == w by {
            assert(self.to_word@[vocabulary[w as int]] == w);
            assert(vocabulary.to_set().contains(vocabulary[w as int]));
        }
        assert forall|k: Seq<char>| #[trigger] self.to_word@.contains_key(k) implies self.from_word@.contains_key(
            self.to_word@[k]) && self.from_word@[self.to_word@[k]].canonical() == k by {
            assert(vocabulary.to_set().contains(k));
            let i = choose|i: int| 0 <= i < vocabulary.len() && vocabulary[i] == k;
            assert(self.to_word@[vocabulary[i]] == i);
        }
    }

    /// Round trip: the key of every number in the sequence leads, by its
    /// canonical form, back to that number.
    pub proof fn lemma_round_trip(&self, j: int)
        requires
            self.wf(),
            0 <= j < self.words@.len(),
        ensures
            self.from_word@.contains_key(self.words@[j]),
            self.to_word@.contains_key(self.from_word@[self.words@[j]].canonical()),
            self.to_word@[self.from_word@[self.words@[j]].canonical()] == self.words@[j],
    {
    }

    /// Tokenizes `text`. See [`initialize_word_sequence`].
    pub fn new<'l, F, P>(text: &'l str, to_t: F, is_word: P) -> (ws: WordSequence<T>) where
        F: Fn(&'l str) -> T,
        P: Fn(&'l str) -> bool,

        requires
            forall|s: &'l str| call_requires(to_t, (s,)),
            forall|s: &'l str| call_requires(is_word, (s,)),
        ensures
            ws.wf(),
            exists|emitted: Seq<(T, CharClass)>|
                tokenizes(text@, runs(text@), to_t, is_word, emitted) && #[trigger] ws.interns(
                    emitted,
                ),
    {
        initialize_word_sequence(text, to_t, is_word)
    }

    /// The key that the number `word` was first seen as, if the number is in use.
    pub fn from_word(&self, word: &Word) -> (key: Option<&T>)
        ensures
            key == if self.from_word@.contains_key(*word) {
                Some(&self.from_word@[*word])
            } else {
                None
            },
    {
        self.from_word.get(word)
    }

    /// The key that the number `word` was first seen as, or `d` if the number
    /// is not in use.
    pub fn from_word_default<'l>(&'l self, word: &Word, d: &'l T) -> (key: &'l T)
        ensures
            *key == if self.from_word@.contains_key(*word) {
                self.from_word@[*word]
            } else {
                *d
            },
    {
        match self.from_word.get(word) {
            Some(key) => key,
            None => d,
        }
    }

    /// The number of the word that `t` names, if there is such a word.
    pub fn to_word(&self, t: &T) -> (word: Option<&usize>)
        ensures
            word == if self.to_word@.contains_key(t.canonical()) {
                Some(&self.to_word@[t.canonical()])
            } else {
                None
            },
    {
        let key = t.canonical_string();
        self.to_word.get(key.as_str())
    }

    /// The key that the number `idx` was first seen as.
    pub fn index(&self, idx: Word) -> (key: &T)
        requires
            self.from_word@.contains_key(idx),
        ensures
            *key == self.from_word@[idx],
    {
        match self.from_word.get(&idx) {
            Some(key) => key,
            None => vstd::pervasive::unreached(),
        }
    }

    /// Gives `key` a number without adding to the sequence: the number that
    /// its canonical form already has, or else the next free number, with
    /// `key` as its key and `class` as its class.
    pub fn insert_word(&mut self, key: T, class: CharClass) -> (id: Word)
        requires
            old(self).wf(),
        ensures
            final(self).wf(),
            final(self).words@ == old(self).words@,
            old(self).to_word@.contains_key(key.canonical()) ==> {
                &&& id == old(self).to_word@[key.canonical()]
                &&& final(self).from_word@ == old(self).from_word@
                &&& final(self).to_word@ == old(self).to_word@
                &&& final(self).class_of_word@ == old(self).class_of_word@
            },
            !old(self).to_word@.contains_key(key.canonical()) ==> {
                &&& id == old(self).from_word@.len()
                &&& final(self).from_word@ == old(self).from_word@.insert(id, key)
                &&& final(self).to_word@ == old(self).to_word@.insert(key.canonical(), id)
                &&& final(self).class_of_word@ == old(self).class_of_word@.insert(id, class)
            },
    {
        let ghost n = self.from_word@.len();
        let id = enter(key, class, &mut self.from_word, &mut self.to_word, &mut self.class_of_word);
        proof {
            if !old(self).to_word@.contains_key(key.canonical()) {
                assert(spec_hash_map_len(&self.from_word) == self.from_word@.len());
                assert(!old(self).from_word@.contains_key(id));
                lemma_words_below_len(id);
                assert(words_below(n + 1) =~= words_below(n).insert(id));
                assert(self.from_word@.len() == n + 1);
                assert forall|w: Word| #[trigger]
                    self.from_word@.contains_key(w) implies self.to_word@.contains_key(
                    self.from_word@[w].canonical(),
                ) && self.to_word@[self.from_word@[w].canonical()] == w by {
                    if w != id {
                        assert(old(self).from_word@.contains_key(w));
                    }
                }
                assert forall|k: Seq<char>| #[trigger]
                    self.to_word@.contains_key(k) implies self.from_word@.contains_key(
                    self.to_word@[k],
                ) && self.from_word@[self.to_word@[k]].canonical() == k by {
                    if k != key.canonical() {
                        assert(old(self).to_word@.contains_key(k));
                    }
                }
                assert forall|j: int| 0 <= j < self.words@.len() implies self.from_word@.contains_key(
                    #[trigger] self.words@[j],
                ) by {
                    assert(old(self).from_word@.contains_key(old(self).words@[j]));
                }
            }
        }
        id
    }

    /// The number of distinct words.
    pub fn len(&self) -> (n: usize)
        ensures
            n == self.from_word@.len(),
    {
        self.from_word.len()
    }
}

} // verus!
