use nl_foundations::case_string::{AsStr, CaseStr};
use std::cmp::Ordering;
use std::collections::HashMap;
use std::hash::{Hash, Hasher};

#[test]
fn test_case_str_1() {
    let s = CaseStr::from("abc");
    assert_eq!(s.len(), 3);
    assert!(!s.is_empty());
}

#[test]
fn test_case_str_eq() {
    let s = CaseStr::from("abc");
    let t = CaseStr::from("abc");
    let u = CaseStr::from("ABC");
    assert_eq!(s, t);
    assert_eq!(s, u);
}

#[test]
fn test_case_str_partialord() {
    let s = CaseStr::from("abc");
    let t = CaseStr::from("abc");
    let u = CaseStr::from("ABC");
    let v = CaseStr::from("AB");
    let w = CaseStr::from("uvw");
    assert_eq!(s.partial_cmp(&t), Some(Ordering::Equal));
    assert_eq!(s.partial_cmp(&u), Some(Ordering::Equal));
    assert_eq!(s.partial_cmp(&v), Some(Ordering::Greater));
    assert_eq!(v.partial_cmp(&s), Some(Ordering::Less));
    assert_eq!(s.partial_cmp(&w), Some(Ordering::Less));
    assert_eq!(w.partial_cmp(&s), Some(Ordering::Greater));
}

#[test]
fn test_case_str_ord() {
    let s = CaseStr::from("abc");
    let t = CaseStr::from("abc");
    let u = CaseStr::from("ABC");
    let v = CaseStr::from("AB");
    let w = CaseStr::from("uvw");
    assert_eq!(s.cmp(&t), Ordering::Equal);
    assert_eq!(s.cmp(&u), Ordering::Equal);
    assert_eq!(s.cmp(&v), Ordering::Greater);
    assert_eq!(v.cmp(&s), Ordering::Less);
    assert_eq!(s.cmp(&w), Ordering::Less);
    assert_eq!(w.cmp(&s), Ordering::Greater);
}

#[allow(deprecated)]
fn do_hash<'s>(s: &CaseStr<'s>) -> u64 {
    let mut hasher = std::hash::SipHasher::new();
    s.hash(&mut hasher);
    hasher.finish()
}

#[test]
fn test_case_str_hash() {
    let s = do_hash(&CaseStr::from("abc"));
    let t = do_hash(&CaseStr::from("abc"));
    let u = do_hash(&CaseStr::from("ABC"));
    assert_eq!(s, t);
    assert_eq!(s, u);
    assert_eq!(t, u);
}

#[test]
fn different_keys_hash_differently() {
    assert_ne!(do_hash(&CaseStr::from("abc")), do_hash(&CaseStr::from("abd")));
    assert_ne!(do_hash(&CaseStr::from("abc")), do_hash(&CaseStr::from("ab")));
    assert_ne!(do_hash(&CaseStr::from("")), do_hash(&CaseStr::from("a")));
}

#[test]
fn test_hashmap() {
    let mut hm: HashMap<CaseStr, usize> = HashMap::new();
    hm.insert(CaseStr::from("one"), 1);
    hm.insert(CaseStr::from("TWO"), 2);
    assert_eq!(hm.get(&CaseStr::from("one")), Some(&1));
    assert_eq!(hm.get(&CaseStr::from("One")), Some(&1));
    assert_eq!(hm.get(&CaseStr::from("two")), Some(&2));
    assert_eq!(hm.get(&CaseStr::from("tWO")), Some(&2));
    assert_eq!(hm.get(&CaseStr::from("owO")), None);
}

#[test]
fn fold_ignores_case() {
    let a = CaseStr::from("ABC");
    let b = CaseStr::from("abc");
    let c = CaseStr::from("aBc");
    assert_eq!(a, b);
    assert_eq!(b, c);
    assert_eq!(a, c);
    assert_eq!(a.to_string(), "abc");
    assert_eq!(c.to_string(), "abc");
    assert_eq!(a.cmp(&b), Ordering::Equal);
    assert!(CaseStr::from("AB") < CaseStr::from("abc"));
    assert_ne!(CaseStr::from("abc"), CaseStr::from("abd"));
}

#[test]
fn fold_maps_every_character() {
    // A lowercase mapping may be longer than one character.
    let dotted = CaseStr::from("\u{130}");
    assert_eq!(dotted.to_string(), "i\u{307}");
    assert_eq!(dotted, CaseStr::from("i\u{307}"));
    assert_eq!(dotted.cmp(&CaseStr::from("i")), Ordering::Greater);
    assert_eq!(CaseStr::from("STRASSE").to_string(), "strasse");
    assert_eq!(CaseStr::from("ÄÖÜ"), CaseStr::from("äöü"));
}

#[test]
fn order_is_lexicographic_on_folded_text() {
    assert_eq!(CaseStr::from("").cmp(&CaseStr::from("")), Ordering::Equal);
    assert_eq!(CaseStr::from("").cmp(&CaseStr::from("a")), Ordering::Less);
    assert_eq!(CaseStr::from("a").cmp(&CaseStr::from("")), Ordering::Greater);
    assert_eq!(CaseStr::from("Zebra").cmp(&CaseStr::from("apple")), Ordering::Greater);
    assert_eq!(CaseStr::from("apple").cmp(&CaseStr::from("Zebra")), Ordering::Less);
    assert_eq!(CaseStr::from("abc").cmp(&CaseStr::from("ABD")), Ordering::Less);
}

#[test]
fn raw_text_is_kept() {
    let s = CaseStr::from("MiXed");
    assert_eq!(s.as_str(), "MiXed");
    assert_eq!("plain".as_str(), "plain");
    assert_eq!(s.split_at(2), ("Mi", "Xed"));
    assert!(CaseStr::from("").is_empty());
    assert_eq!(CaseStr::from("é").len(), 2);
}

#[test]
fn appending_characters() {
    let mut chars = vec!['a', 'b'];
    nl_foundations::folding::append(&mut chars, &vec!['c', 'd']);
    assert_eq!(chars, vec!['a', 'b', 'c', 'd']);
    nl_foundations::folding::append(&mut chars, &vec![]);
    assert_eq!(chars, vec!['a', 'b', 'c', 'd']);
    assert_eq!(nl_foundations::folding::folded("AbC"), vec!['a', 'b', 'c']);
    assert_eq!(nl_foundations::folding::folded_string("AbC"), "abc");
    assert!(nl_foundations::folding::same(&vec!['x'], &vec!['x']));
    assert!(!nl_foundations::folding::same(&vec!['x'], &vec!['y']));
    assert_eq!(
        nl_foundations::folding::compare(&vec!['a'], &vec!['a', 'b']),
        nl_foundations::order::Order::Less
    );
}
