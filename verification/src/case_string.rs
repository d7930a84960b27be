//! A string key that ignores case.
use crate::folding::{
    compare,
    fold,
    folded,
    folded_string,
    lemma_lex_antisymmetric,
    lemma_lex_equal,
    lemma_lex_prefix,
    lemma_lex_transitive,
    lex_order,
    same,
};
use crate::order::Order;
use crate::word_sequence::TokenKey;
use std::cmp::Ordering;
use std::hash::{Hash, Hasher};
use vstd::prelude::*;
use vstd::std_specs::cmp::{PartialEqSpec, PartialEqSpecImpl, PartialOrdSpec, PartialOrdSpecImpl};
use vstd::string::*;
use vstd::utf8::is_char_boundary;

verus! {

/// A string slice that is compared, ordered and hashed by its text folded to
/// lower case: two spellings of a word that differ in case only are the same
/// key.
#[derive(Debug, Clone, Copy)]
pub struct CaseStr<'s>(&'s str);

impl<'s> View for CaseStr<'s> {
    type V = Seq<char>;

    /// The text of the key, folded to lower case.
    open spec fn view(&self) -> Seq<char> {
        fold(self.raw())
    }
}

/// The standard ordering that stands for an order of two texts.
pub open spec fn ordering_of(order: Order) -> Ordering {
    match order {
        Order::Less => Ordering::Less,
        Order::Equal => Ordering::Equal,
        Order::Greater => Ordering::Greater,
    }
}

impl<'s> CaseStr<'s> {
    /// The text of the key as it was written.
    pub closed spec fn raw(&self) -> Seq<char> {
        self.0@
    }

    /// The key for the text `s`.
    pub fn from(s: &'s str) -> (key: CaseStr<'s>)
        ensures
            key.raw() == s@,
    {
        CaseStr(s)
    }

    /// The number of bytes of the text as it was written.
    pub fn len(&self) -> (n: usize)
        ensures
            n == vstd::utf8::encode_utf8(self.raw()).len(),
    {
        self.0.as_bytes().len()
    }

    /// Whether the text is empty.
    pub fn is_empty(&self) -> (empty: bool)
        ensures
            empty == (self.raw().len() == 0),
    {
        self.0.is_empty()
    }

    /// The text as it was written, cut in two at the byte `mid`, which must
    /// lie between two characters.
    pub fn split_at(&self, mid: usize) -> (parts: (&str, &str))
        requires
            is_char_boundary(vstd::utf8::encode_utf8(self.raw()), mid as int),
        ensures
            parts.0@ + parts.1@ == self.raw(),
            vstd::utf8::encode_utf8(parts.0@).len() == mid,
    {
        let parts = self.0.split_at(mid);
        proof {
            let bytes = self.0.spec_bytes();
            vstd::utf8::encode_utf8_valid_utf8(self.0@);
            vstd::utf8::decode_utf8_split(bytes, mid as int);
            vstd::utf8::encode_utf8_decode_utf8(self.0@);
            vstd::utf8::encode_utf8_decode_utf8(parts.0@);
            vstd::utf8::encode_utf8_decode_utf8(parts.1@);
        }
        parts
    }

    /// The text of the key, folded to lower case.
    pub fn to_string(&self) -> (s: String)
        ensures
            s@ == self@,
    {
        folded_string(self.0)
    }

    /// How this key stands to `other`: by the lexicographic order of their
    /// texts folded to lower case.
    pub fn cmp(&self, other: &Self) -> (ordering: Ordering)
        ensures
            ordering == ordering_of(lex_order(self@, other@)),
    {
        let a = folded(self.0);
        let b = folded(other.0);
        match compare(&a, &b) {
            Order::Less => Ordering::Less,
            Order::Equal => Ordering::Equal,
            Order::Greater => Ordering::Greater,
        }
    }
}

impl<'s> PartialEq for CaseStr<'s> {
    fn eq(&self, other: &Self) -> (equal: bool) {
        let a = folded(self.0);
        let b = folded(other.0);
        same(&a, &b)
    }
}

impl<'s> PartialEqSpecImpl for CaseStr<'s> {
    open spec fn obeys_eq_spec() -> bool {
        true
    }

    open spec fn eq_spec(&self, other: &Self) -> bool {
        self@ == other@
    }
}

impl<'s> Eq for CaseStr<'s> {

}

impl<'s> PartialOrd for CaseStr<'s> {
    fn partial_cmp(&self, other: &Self) -> (ordering: Option<Ordering>) {
        Some(self.cmp(other))
    }
}

impl<'s> PartialOrdSpecImpl for CaseStr<'s> {
    open spec fn obeys_partial_cmp_spec() -> bool {
        true
    }

    open spec fn partial_cmp_spec(&self, other: &Self) -> Option<Ordering> {
        Some(ordering_of(lex_order(self@, other@)))
    }
}

/// Calls `<char as Hash>::hash`, which feeds one character to a hasher.
/// Nothing is known of the hasher afterwards.
#[verifier::external_body]
fn feed<H: Hasher>(state: &mut H, c: char) {
    c.hash(state)
}

impl<'s> Hash for CaseStr<'s> {
    /// Feeds the characters of the text folded to lower case, in order: keys
    /// with the same view feed the same characters.
    fn hash<H: Hasher>(&self, state: &mut H) {
        let chars = folded(self.0);
        let mut i: usize = 0;
        while i < chars.len()
            invariant
                0 <= i <= chars.len(),
            decreases chars.len() - i,
        {
            feed(state, chars[i]);
            i = i + 1;
        }
    }
}

impl<'s> TokenKey for CaseStr<'s> {
    open spec fn canonical(&self) -> Seq<char> {
        self@
    }

    fn canonical_string(&self) -> (s: String) {
        folded_string(self.0)
    }
}

/// What can be read as a string slice.
pub trait AsStr {
    /// The text that `as_str` gives.
    spec fn text(&self) -> Seq<char>;

    /// The text as a string slice.
    fn as_str(&self) -> (s: &str)
        ensures
            s@ == self.text(),
    ;
}

impl AsStr for str {
    open spec fn text(&self) -> Seq<char> {
        self@
    }

    fn as_str<'s>(&'s self) -> (s: &'s str) {
        self
    }
}

impl<'s> AsStr for &'s str {
    open spec fn text(&self) -> Seq<char> {
        self@
    }

    fn as_str<'t>(&'t self) -> (s: &'t str) {
        self
    }
}

impl<'s> AsStr for CaseStr<'s> {
    /// The text as it was written, not folded.
    open spec fn text(&self) -> Seq<char> {
        self.raw()
    }

    fn as_str<'t>(&'t self) -> (s: &'t str) {
        self.0
    }
}

/// Keys whose texts fold to the same lower-case text are equal, and equal
/// keys stand equal in the order: the order agrees with the equality.
pub proof fn lemma_order_agrees_with_equality(a: CaseStr, b: CaseStr)
    ensures
        fold(a.raw()) == fold(b.raw()) <==> PartialEqSpec::eq_spec(&a, &b),
        PartialEqSpec::eq_spec(&a, &b) <==> PartialOrdSpec::partial_cmp_spec(&a, &b) == Some(Ordering::Equal),
{
    lemma_lex_equal(a@, b@);
}

/// A key whose folded text another key's folded text continues is the lesser
/// of the two.
pub proof fn lemma_shorter_is_less(a: CaseStr, b: CaseStr)
    requires
        a@.is_prefix_of(b@),
        a@.len() < b@.len(),
    ensures
        PartialOrdSpec::partial_cmp_spec(&a, &b) == Some(Ordering::Less),
{
    lemma_lex_prefix(a@, b@);
}

/// Equality of keys is an equivalence.
pub proof fn lemma_equality_is_equivalence(a: CaseStr, b: CaseStr, c: CaseStr)
    ensures
        PartialEqSpec::eq_spec(&a, &a),
        PartialEqSpec::eq_spec(&a, &b) ==> PartialEqSpec::eq_spec(&b, &a),
        PartialEqSpec::eq_spec(&a, &b) && PartialEqSpec::eq_spec(&b, &c) ==> PartialEqSpec::eq_spec(&a, &c),
{
}

/// The order of keys is a total order on their folded texts: turning two
/// keys round turns their order round, and the order is transitive.
pub proof fn lemma_order_is_total(a: CaseStr, b: CaseStr, c: CaseStr)
    ensures
        PartialOrdSpec::partial_cmp_spec(&a, &b) == Some(Ordering::Less) <==> PartialOrdSpec::partial_cmp_spec(&b, &a) == Some(
            Ordering::Greater,
        ),
        PartialOrdSpec::partial_cmp_spec(&a, &b) == Some(Ordering::Equal) <==> PartialOrdSpec::partial_cmp_spec(&b, &a) == Some(
            Ordering::Equal,
        ),
        PartialOrdSpec::partial_cmp_spec(&a, &b) != Some(Ordering::Greater) && PartialOrdSpec::partial_cmp_spec(&b, &c) != Some(
            Ordering::Greater,
        ) ==> PartialOrdSpec::partial_cmp_spec(&a, &c) != Some(Ordering::Greater),
{
    lemma_lex_antisymmetric(a@, b@);
    if lex_order(a@, b@) != Order::Greater && lex_order(b@, c@) != Order::Greater {
        lemma_lex_transitive(a@, b@, c@);
    }
}

} // verus!
