//! Keywords in context: the places of a word in a text, each with the words
//! around it.
use crate::case_string::AsStr;
use crate::word_sequence::{TokenKey, Word, WordSequence};
use vstd::prelude::*;
use vstd::std_specs::hash::*;
use vstd::string::*;

verus! {

broadcast use vstd::std_specs::hash::group_hash_axioms;

/// The words to the left of a place, the word at the place, and the words to
/// its right.
pub type Context = (String, String, String);

/// The contexts of the places of a word.
pub type Contexts = Vec<Context>;

/// The texts `parts`, with one space between each two.
pub open spec fn joined(parts: Seq<Seq<char>>) -> Seq<char>
    decreases parts.len(),
{
    if parts.len() == 0 {
        Seq::empty()
    } else if parts.len() == 1 {
        parts[0]
    } else {
        joined(parts.drop_last()) + seq![' '] + parts.last()
    }
}

/// The texts of the words of `ws` at the places `from..to`, as written.
pub open spec fn texts<T: TokenKey + AsStr>(ws: WordSequence<T>, from: int, to: int) -> Seq<
    Seq<char>,
> {
    Seq::new((to - from) as nat, |i: int| ws.from_word@[ws.words@[from + i]].text())
}

/// The place where the window to the left of `word` begins.
pub open spec fn window_start(word: int, window: int) -> int {
    if word > window {
        word - window
    } else {
        0
    }
}

/// The place where the window to the right of `word` ends.
pub open spec fn window_end(word: int, window: int, len: int) -> int {
    if word + window + 1 > len {
        len
    } else {
        word + window + 1
    }
}

/// The context of the place `word` of `ws`: the texts of up to `window` words
/// before it, joined by spaces; the canonical form of the word there; and the
/// texts of up to `window` words after it, joined by spaces.
pub open spec fn segment_at<T: TokenKey + AsStr>(ws: WordSequence<T>, word: int, window: int) -> (
    Seq<char>,
    Seq<char>,
    Seq<char>,
) {
    (
        joined(texts(ws, window_start(word, window), word)),
        ws.from_word@[ws.words@[word]].canonical(),
        joined(texts(ws, word + 1, window_end(word, window, ws.words@.len() as int))),
    )
}

/// The texts of the words of `ws` at the places `from..to`, joined by spaces.
fn join<T: TokenKey + AsStr>(ws: &WordSequence<T>, from: usize, to: usize) -> (s: String)
    requires
        ws.wf(),
        from <= to <= ws.words@.len(),
    ensures
        s@ == joined(texts(*ws, from as int, to as int)),
{
    let mut s = String::new();
    let mut i: usize = from;
    proof {
        reveal_strlit(" ");
        assert(texts(*ws, from as int, from as int) =~= Seq::<Seq<char>>::empty());
        assert(" "@ =~= seq![' ']);
    }
    while i < to
        invariant
            ws.wf(),
            from <= i <= to <= ws.words@.len(),
            s@ == joined(texts(*ws, from as int, i as int)),
            " "@ == seq![' '],
        decreases to - i,
    {
        let ghost before = texts(*ws, from as int, i as int);
        let ghost after = texts(*ws, from as int, i + 1);
        proof {
            assert(after.drop_last() =~= before);
        }
        if i > from {
            s.append(" ");
        }
        let key = ws.index(ws.words[i]);
        s.append(key.as_str());
        proof {
            assert(after.last() == key.text());
            if i == from {
                assert(s@ =~= after[0]);
            }
        }
        i = i + 1;
    }
    s
}

/// Find the KWIC segments (left, the word, and right) in the word sequence.
pub fn get_segment<T>(word: usize, window: usize, ws: &WordSequence<T>) -> (segment: Context) where
    T: TokenKey + AsStr,

    requires
        ws.wf(),
        word < ws.words@.len(),
    ensures
        (segment.0@, segment.1@, segment.2@) == segment_at(*ws, word as int, window as int),
{
    let len = ws.words.len();
    let start: usize = if word > window {
        word - window
    } else {
        0
    };
    let end: usize = if window >= len - word - 1 {
        len
    } else {
        word + window + 1
    };
    let left = join(ws, start, word);
    let right = join(ws, word + 1, end);
    let middle = ws.index(ws.words[word]).canonical_string();
    (left, middle, right)
}

/// The places among the first `n` of `words` at which `id` stands, in order.
pub open spec fn places(words: Seq<Word>, id: Word, n: int) -> Seq<int>
    decreases n,
{
    if n <= 0 {
        Seq::empty()
    } else if words[n - 1] == id {
        places(words, id, n - 1).push(n - 1)
    } else {
        places(words, id, n - 1)
    }
}

/// Whether `lines` holds the contexts of the places `at` of `ws`, in order.
pub open spec fn contexts_at<T: TokenKey + AsStr>(
    ws: WordSequence<T>,
    at: Seq<int>,
    window: int,
    lines: Seq<Context>,
) -> bool {
    &&& lines.len() == at.len()
    &&& forall|j: int|
        0 <= j < at.len() ==> 0 <= #[trigger] at[j] < ws.words@.len() && (
            lines[j].0@,
            lines[j].1@,
            lines[j].2@,
        ) == segment_at(ws, at[j], window)
}

/// The context of every place of the word that `word` names, in the order of
/// the places; nothing if there is no such word.
pub fn segments<T>(ws: &WordSequence<T>, word: T, window: usize) -> (lines: Contexts) where
    T: TokenKey + AsStr,

    requires
        ws.wf(),
    ensures
        !ws.to_word@.contains_key(word.canonical()) ==> lines@.len() == 0,
        ws.to_word@.contains_key(word.canonical()) ==> contexts_at(
            *ws,
            places(ws.words@, ws.to_word@[word.canonical()], ws.words@.len() as int),
            window as int,
            lines@,
        ),
{
    let mut lines: Contexts = Vec::new();
    match ws.to_word(&word) {
        Some(id) => {
            let id: Word = *id;
            let ghost mut at: Seq<int> = Seq::empty();
            let mut i: usize = 0;
            while i < ws.words.len()
                invariant
                    ws.wf(),
                    0 <= i <= ws.words@.len(),
                    at == places(ws.words@, id, i as int),
                    contexts_at(*ws, at, window as int, lines@),
                decreases ws.words@.len() - i,
            {
                if ws.words[i] == id {
                    let segment = get_segment(i, window, ws);
                    let ghost before = lines@;
                    lines.push(segment);
                    proof {
                        let old_at = at;
                        at = at.push(i as int);
                        assert forall|j: int| 0 <= j < at.len() implies 0 <= #[trigger] at[j]
                            < ws.words@.len() && (lines@[j].0@, lines@[j].1@, lines@[j].2@)
                            == segment_at(*ws, at[j], window as int) by {
                            if j < before.len() {
                                assert(lines@[j] == before[j]);
                                assert(at[j] == old_at[j]);
                            }
                        }
                    }
                }
                i = i + 1;
            }
        },
        None => {},
    }
    lines
}

} // verus!
