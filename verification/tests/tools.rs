use nl_foundations::case_string::CaseStr;
use nl_foundations::collocation::{any_alphabetic, bigram_samples, word_samples};
use nl_foundations::kwic::{get_segment, segments};
use nl_foundations::word_sequence::{CharClass, WordSequence};

fn line(l: &str, w: &str, r: &str) -> (String, String, String) {
    (l.to_string(), w.to_string(), r.to_string())
}

#[test]
fn segment_has_the_words_around_a_place() {
    let ws = WordSequence::new("a b c d e f g", |s| s, |_| true);
    assert_eq!(get_segment(3, 2, &ws), line("b c", "d", "e f"));
    assert_eq!(get_segment(3, 0, &ws), line("", "d", ""));
    assert_eq!(get_segment(3, 1, &ws), line("c", "d", "e"));
}

#[test]
fn segment_is_clipped_at_both_ends() {
    let ws = WordSequence::new("a b c d e f g", |s| s, |_| true);
    assert_eq!(get_segment(0, 3, &ws), line("", "a", "b c d"));
    assert_eq!(get_segment(1, 3, &ws), line("a", "b", "c d e"));
    assert_eq!(get_segment(6, 3, &ws), line("d e f", "g", ""));
    assert_eq!(get_segment(5, 3, &ws), line("c d e", "f", "g"));
    assert_eq!(get_segment(2, 100, &ws), line("a b", "c", "d e f g"));
    assert_eq!(get_segment(2, usize::MAX, &ws), line("a b", "c", "d e f g"));
}

#[test]
fn segments_of_every_place_of_a_word() {
    let ws = WordSequence::new("the cat and the dog and the bird", |s| s, |_| true);
    assert_eq!(
        segments(&ws, "the", 1),
        vec![line("", "the", "cat"), line("and", "the", "dog"), line("and", "the", "bird")]
    );
    assert_eq!(segments(&ws, "and", 2).len(), 2);
    assert_eq!(segments(&ws, "bird", 2), vec![line("and the", "bird", "")]);
    assert!(segments(&ws, "fish", 2).is_empty());
}

#[test]
fn segments_without_case() {
    let ws = WordSequence::new("The cat. THE dog.", CaseStr::from, |_| true);
    let lines = segments(&ws, CaseStr::from("the"), 1);
    // The windows show the words as first written, the word itself folded.
    assert_eq!(lines, vec![line("", "the", "cat"), line(".", "the", "dog")]);
    let stops = segments(&ws, CaseStr::from("."), 1);
    assert_eq!(stops, vec![line("cat", ".", "The"), line("dog", ".", "")]);
}

#[test]
fn any_alphabetic_looks_at_every_character() {
    assert!(any_alphabetic("abc"));
    assert!(any_alphabetic("12c"));
    assert!(any_alphabetic("é"));
    assert!(!any_alphabetic("123"));
    assert!(!any_alphabetic("..."));
    assert!(!any_alphabetic(""));
}

#[test]
fn words_and_pairs_are_sampled() {
    let ws = WordSequence::new("a b a b c", |s| s, |_| true);
    assert_eq!(ws.words, vec![0, 1, 0, 1, 2]);
    let words = word_samples(&ws.words);
    assert_eq!(words.total, 5);
    assert_eq!(words.counts.get(&0), Some(&2));
    assert_eq!(words.counts.get(&2), Some(&1));
    let pairs = bigram_samples(&ws.words);
    assert_eq!(pairs.total, 4);
    assert_eq!(pairs.counts.get(&(0, 1)), Some(&2));
    assert_eq!(pairs.counts.get(&(1, 0)), Some(&1));
    assert_eq!(pairs.counts.get(&(1, 2)), Some(&1));
    assert_eq!(pairs.counts.get(&(2, 0)), None);
}

#[test]
fn sampling_short_sequences() {
    assert_eq!(word_samples(&[]).total, 0);
    assert_eq!(bigram_samples(&[]).total, 0);
    assert_eq!(bigram_samples(&[7]).total, 0);
    let one = bigram_samples(&[7, 7]);
    assert_eq!(one.total, 1);
    assert_eq!(one.counts.get(&(7, 7)), Some(&1));
}

#[test]
fn a_word_can_get_a_number_without_a_place() {
    let mut ws = WordSequence::new("x. y.+", |s| s, |_| true);
    assert_eq!(ws.words, vec![0, 1, 2, 3]);
    let stop = ws.insert_word(".", CharClass::Other);
    assert_eq!(stop, 1);
    let bang = ws.insert_word("!", CharClass::Other);
    assert_eq!(bang, 4);
    assert_eq!(ws.words, vec![0, 1, 2, 3]);
    assert_eq!(ws.len(), 5);
    assert_eq!(ws.from_word(&4), Some(&"!"));
    assert_eq!(ws.to_word(&"!"), Some(&4));
    assert_eq!(ws.class_of_word.get(&4), Some(&CharClass::Other));
}
