use nl_foundations::case_string::CaseStr;
use nl_foundations::word_sequence::{initialize_word_sequence, CharClass, WordSequence};

#[test]
fn test_char_class() {
    assert_eq!(CharClass::classify('a'), CharClass::Alphabetic);
    assert_eq!(CharClass::classify('1'), CharClass::Numeric);
    assert_eq!(CharClass::classify(' '), CharClass::Whitespace);
    assert_eq!(CharClass::classify(';'), CharClass::Other);
}

#[test]
fn test_initialize_word_sequence() {
    let ws = initialize_word_sequence("abc 123 ", |s| s, |_| true);
    assert_eq!(ws.from_word.get(&0), Some(&"abc"));
    assert_eq!(ws.from_word.get(&1), Some(&"123"));
    assert_eq!(ws.from_word.get(&2), None);
    assert_eq!(ws.words, vec!(0, 1));
}

#[test]
fn test_initialize_word_sequence_2() {
    let ws = initialize_word_sequence("this is a test; 1, 2, three", |s| s, |_| true);
    assert_eq!(ws.from_word.get(&0), Some(&"this"));
    assert_eq!(ws.from_word.get(&1), Some(&"is"));
    assert_eq!(ws.from_word.get(&2), Some(&"a"));
    assert_eq!(ws.from_word.get(&3), Some(&"test"));
    assert_eq!(ws.from_word.get(&4), Some(&";"));
    assert_eq!(ws.from_word.get(&5), Some(&"1"));
    assert_eq!(ws.from_word.get(&6), Some(&","));
    assert_eq!(ws.from_word.get(&7), Some(&"2"));
    assert_eq!(ws.from_word.get(&8), Some(&"three"));
    assert_eq!(ws.words, vec!(0, 1, 2, 3, 4, 5, 6, 7, 6, 8));
}

#[test]
fn test_with_case() {
    let ws = WordSequence::new("This is a test. Is only a test.", |s| s, |_| true);
    assert_eq!(ws.words, vec!(0, 1, 2, 3, 4, 5, 6, 2, 3, 4));
}

#[test]
fn test_without_case() {
    let ws = WordSequence::new("This is a test. Is only a test.", CaseStr::from, |_| true);
    assert_eq!(ws.words, vec!(0, 1, 2, 3, 4, 1, 5, 2, 3, 4));
}

#[test]
fn lookups_say_when_nothing_is_there() {
    let ws = WordSequence::new("one two one", |s| s, |_| true);
    assert_eq!(ws.words, vec![0, 1, 0]);
    assert_eq!(ws.len(), 2);
    assert_eq!(ws.from_word(&0), Some(&"one"));
    assert_eq!(ws.from_word(&1), Some(&"two"));
    assert_eq!(ws.from_word(&2), None);
    assert_eq!(ws.to_word(&"two"), Some(&1));
    assert_eq!(ws.to_word(&"three"), None);
    let fallback = "?";
    assert_eq!(ws.from_word_default(&1, &fallback), &"two");
    assert_eq!(ws.from_word_default(&7, &fallback), &"?");
    assert_eq!(ws.index(0), &"one");
}

#[test]
fn every_number_leads_back_to_itself() {
    let text = "The cat saw the Cat; THE END. 12 cats, 12 Cats!";
    let exact = WordSequence::new(text, |s| s, |_| true);
    for &w in exact.words.iter() {
        let key = exact.from_word(&w).unwrap();
        assert_eq!(exact.to_word(key), Some(&w));
    }
    let folded = WordSequence::new(text, CaseStr::from, |_| true);
    for &w in folded.words.iter() {
        let key = folded.from_word(&w).unwrap();
        assert_eq!(folded.to_word(key), Some(&w));
    }
    assert!(folded.len() < exact.len());
}

#[test]
fn tokenizing_twice_gives_the_same() {
    let text = "To be, or not to be: that is the question.";
    let a = WordSequence::new(text, CaseStr::from, |_| true);
    let b = WordSequence::new(text, CaseStr::from, |_| true);
    assert_eq!(a.words, b.words);
    assert_eq!(a.len(), b.len());
    for w in 0..a.len() {
        assert_eq!(a.from_word(&w), b.from_word(&w));
        assert_eq!(a.class_of_word.get(&w), b.class_of_word.get(&w));
    }
}

#[test]
fn classes_are_kept_from_the_first_occurrence() {
    let ws = WordSequence::new("ab 12 ;; ab", |s| s, |_| true);
    assert_eq!(ws.words, vec![0, 1, 2, 0]);
    assert_eq!(ws.class_of_word.get(&0), Some(&CharClass::Alphabetic));
    assert_eq!(ws.class_of_word.get(&1), Some(&CharClass::Numeric));
    assert_eq!(ws.class_of_word.get(&2), Some(&CharClass::Other));
    assert_eq!(ws.class_of_word.get(&3), None);
}

#[test]
fn words_are_cut_where_the_class_changes() {
    let ws = WordSequence::new("abc123...def", |s| s, |_| true);
    assert_eq!(ws.words, vec![0, 1, 2, 3]);
    assert_eq!(ws.from_word(&0), Some(&"abc"));
    assert_eq!(ws.from_word(&1), Some(&"123"));
    assert_eq!(ws.from_word(&2), Some(&"..."));
    assert_eq!(ws.from_word(&3), Some(&"def"));
}

#[test]
fn whitespace_is_no_word() {
    let empty = WordSequence::new("", |s| s, |_| true);
    assert!(empty.words.is_empty());
    assert_eq!(empty.len(), 0);
    let blank = WordSequence::new(" \t\n  ", |s| s, |_| true);
    assert!(blank.words.is_empty());
    let one = WordSequence::new("  x", |s| s, |_| true);
    assert_eq!(one.words, vec![0]);
    assert_eq!(one.from_word(&0), Some(&"x"));
}

#[test]
fn control_characters_make_words() {
    let ws = WordSequence::new("a\u{1}\u{2}b", |s| s, |_| true);
    assert_eq!(ws.words, vec![0, 1, 2]);
    assert_eq!(ws.from_word(&1), Some(&"\u{1}\u{2}"));
    assert_eq!(ws.class_of_word.get(&1), Some(&CharClass::Control));
    assert_eq!(CharClass::classify('\u{0}'), CharClass::Control);
    assert_eq!(CharClass::classify('\n'), CharClass::Whitespace);
}

#[test]
fn the_predicate_leaves_words_out() {
    let ws = WordSequence::new(
        "one, two; 3 four!",
        |s| s,
        |s: &str| s.chars().any(|c| c.is_alphabetic()),
    );
    assert_eq!(ws.words, vec![0, 1, 2]);
    assert_eq!(ws.from_word(&0), Some(&"one"));
    assert_eq!(ws.from_word(&1), Some(&"two"));
    assert_eq!(ws.from_word(&2), Some(&"four"));
    assert_eq!(ws.to_word(&","), None);
}

#[test]
fn words_of_many_bytes() {
    let ws = WordSequence::new("žluťoučký kůň — žluťoučký", CaseStr::from, |_| true);
    assert_eq!(ws.words, vec![0, 1, 2, 0]);
    assert_eq!(ws.from_word(&0).map(|k| k.to_string()), Some("žluťoučký".to_string()));
    assert_eq!(ws.from_word(&2).map(|k| k.to_string()), Some("—".to_string()));
    let upper = WordSequence::new("KŮŇ kůň", CaseStr::from, |_| true);
    assert_eq!(upper.words, vec![0, 0]);
}

#[test]
fn class_follows_the_first_property_that_holds() {
    assert_eq!(CharClass::from_properties(true, true, true, true), CharClass::Alphabetic);
    assert_eq!(CharClass::from_properties(false, true, true, true), CharClass::Numeric);
    assert_eq!(CharClass::from_properties(false, false, true, true), CharClass::Whitespace);
    assert_eq!(CharClass::from_properties(false, false, false, true), CharClass::Control);
    assert_eq!(CharClass::from_properties(false, false, false, false), CharClass::Other);
}

#[test]
fn keys_that_own_their_text() {
    let ws: WordSequence<String> =
        WordSequence::new("b a b", |s: &str| s.to_string(), |_| true);
    assert_eq!(ws.words, vec![0, 1, 0]);
    assert_eq!(ws.from_word(&1), Some(&"a".to_string()));
    assert_eq!(ws.to_word(&"b".to_string()), Some(&0));
    assert_eq!(ws.to_word(&"c".to_string()), None);
}

#[test]
fn numbers_follow_the_first_occurrence() {
    let ws = WordSequence::new("z y z x y w", |s| s, |_| true);
    assert_eq!(ws.words, vec![0, 1, 0, 2, 1, 3]);
    // The number at a first occurrence is the number of distinct words before it.
    let mut seen: Vec<usize> = Vec::new();
    for &w in ws.words.iter() {
        if !seen.contains(&w) {
            assert_eq!(w, seen.len());
            seen.push(w);
        }
    }
}
