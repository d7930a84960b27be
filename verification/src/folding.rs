//! Folding a text to lower case, and comparing folded texts.
use crate::order::Order;
use vstd::prelude::*;
use vstd::string::*;

verus! {

/// What `char::to_lowercase` yields for `c`: the characters of its lowercase
/// mapping, in order.
pub uninterp spec fn lowercase(c: char) -> Seq<char>;

/// Calls `char::to_lowercase`, which maps a character to lower case by the
/// Unicode tables that the standard library was built with, and collects the
/// characters it yields. They depend on the character alone.
#[verifier::external_body]
pub(crate) fn lowercase_chars(c: char) -> (lower: Vec<char>)
    ensures
        lower@ == lowercase(c),
{
    c.to_lowercase().collect()
}

/// Calls `String::push`, which appends one character to a string.
#[verifier::external_body]
pub(crate) fn push_char(s: &mut String, c: char)
    ensures
        final(s)@ == old(s)@.push(c),
{
    s.push(c)
}

/// A text folded to lower case: the lowercase mappings of its characters,
/// one after the other.
pub open spec fn fold(text: Seq<char>) -> Seq<char>
    decreases text.len(),
{
    if text.len() == 0 {
        Seq::empty()
    } else {
        fold(text.drop_last()) + lowercase(text.last())
    }
}

/// Appends the characters of `more` to `chars`.
pub fn append(chars: &mut Vec<char>, more: &Vec<char>)
    ensures
        final(chars)@ == old(chars)@ + more@,
{
    let ghost before = chars@;
    let mut j: usize = 0;
    proof {
        assert(before + more@.take(0) =~= before);
    }
    while j < more.len()
        invariant
            0 <= j <= more.len(),
            chars@ == before + more@.take(j as int),
        decreases more.len() - j,
    {
        chars.push(more[j]);
        proof {
            assert(more@.take(j + 1) =~= more@.take(j as int).push(more@[j as int]));
            assert(before + more@.take(j + 1) =~= (before + more@.take(j as int)).push(
                more@[j as int],
            ));
        }
        j = j + 1;
    }
    proof {
        assert(more@.take(more.len() as int) =~= more@);
    }
}

/// The characters of `text`, folded to lower case.
pub fn folded(text: &str) -> (chars: Vec<char>)
    ensures
        chars@ == fold(text@),
{
    let mut chars: Vec<char> = Vec::new();
    for ch in it: text.chars()
        invariant
            it.seq() == text@,
            chars@ == fold(text@.take(it.index() as int)),
    {
        let ghost i = it.index() as int;
        let lower = lowercase_chars(ch);
        append(&mut chars, &lower);
        proof {
            assert(text@.take(i + 1).drop_last() =~= text@.take(i));
            assert(text@.take(i + 1).last() == ch);
        }
    }
    proof {
        assert(text@.take(text@.len() as int) =~= text@);
    }
    chars
}

/// `text` folded to lower case, as a string.
pub fn folded_string(text: &str) -> (s: String)
    ensures
        s@ == fold(text@),
{
    let chars = folded(text);
    let mut s = String::new();
    let mut j: usize = 0;
    while j < chars.len()
        invariant
            0 <= j <= chars.len(),
            s@ == chars@.take(j as int),
        decreases chars.len() - j,
    {
        push_char(&mut s, chars[j]);
        proof {
            assert(chars@.take(j + 1) =~= chars@.take(j as int).push(chars@[j as int]));
        }
        j = j + 1;
    }
    proof {
        assert(chars@.take(chars.len() as int) =~= chars@);
    }
    s
}

/// The lexicographic order of two texts: the first place at which they
/// differ decides, by the order of the characters there; a text that ends
/// before it differs from the other is the lesser one.
pub open spec fn lex_order(a: Seq<char>, b: Seq<char>) -> Order
    decreases a.len(),
{
    if a.len() == 0 && b.len() == 0 {
        Order::Equal
    } else if a.len() == 0 {
        Order::Less
    } else if b.len() == 0 {
        Order::Greater
    } else if a[0] < b[0] {
        Order::Less
    } else if a[0] > b[0] {
        Order::Greater
    } else {
        lex_order(a.drop_first(), b.drop_first())
    }
}

/// Two texts stand equal exactly when they are the same text.
pub proof fn lemma_lex_equal(a: Seq<char>, b: Seq<char>)
    ensures
        lex_order(a, b) == Order::Equal <==> a == b,
    decreases a.len(),
{
    if a.len() > 0 && b.len() > 0 && a[0] == b[0] {
        lemma_lex_equal(a.drop_first(), b.drop_first());
        if a.drop_first() == b.drop_first() {
            assert(a =~= seq![a[0]] + a.drop_first());
            assert(b =~= seq![b[0]] + b.drop_first());
        }
    } else if a.len() == 0 && b.len() == 0 {
        assert(a =~= b);
    }
}

/// Turning two texts round turns their order round.
pub proof fn lemma_lex_antisymmetric(a: Seq<char>, b: Seq<char>)
    ensures
        lex_order(a, b) == Order::Less <==> lex_order(b, a) == Order::Greater,
        lex_order(a, b) == Order::Equal <==> lex_order(b, a) == Order::Equal,
        lex_order(a, b) == Order::Greater <==> lex_order(b, a) == Order::Less,
    decreases a.len(),
{
    if a.len() > 0 && b.len() > 0 && a[0] == b[0] {
        lemma_lex_antisymmetric(a.drop_first(), b.drop_first());
    }
}

/// The order is transitive.
pub proof fn lemma_lex_transitive(a: Seq<char>, b: Seq<char>, c: Seq<char>)
    requires
        lex_order(a, b) != Order::Greater,
        lex_order(b, c) != Order::Greater,
    ensures
        lex_order(a, c) != Order::Greater,
        lex_order(a, b) == Order::Less || lex_order(b, c) == Order::Less ==> lex_order(a, c)
            == Order::Less,
    decreases a.len(),
{
    if a.len() > 0 && b.len() > 0 && c.len() > 0 && a[0] == b[0] && b[0] == c[0] {
        lemma_lex_transitive(a.drop_first(), b.drop_first(), c.drop_first());
    }
}

/// A text that another continues is the lesser of the two.
pub proof fn lemma_lex_prefix(a: Seq<char>, b: Seq<char>)
    requires
        a.is_prefix_of(b),
        a.len() < b.len(),
    ensures
        lex_order(a, b) == Order::Less,
    decreases a.len(),
{
    if a.len() > 0 {
        let a1 = a.drop_first();
        let b1 = b.drop_first();
        assert(b.subrange(0, a.len() as int)[0] == a[0]);
        assert(a1 =~= b1.subrange(0, a1.len() as int)) by {
            assert forall|i: int| 0 <= i < a1.len() implies #[trigger] a1[i] == b1.subrange(
                0,
                a1.len() as int,
            )[i] by {
                assert(b.subrange(0, a.len() as int)[i + 1] == a[i + 1]);
            }
        }
        lemma_lex_prefix(a1, b1);
    }
}

/// The order of two texts that agree before the place `i`.
pub proof fn lemma_lex_skip(a: Seq<char>, b: Seq<char>, i: int)
    requires
        0 <= i <= a.len(),
        i <= b.len(),
        a.take(i) == b.take(i),
    ensures
        lex_order(a, b) == lex_order(a.skip(i), b.skip(i)),
    decreases i,
{
    if i == 0 {
        assert(a.skip(0) =~= a);
        assert(b.skip(0) =~= b);
    } else {
        assert(a.take(i)[0] == a[0]);
        assert(b.take(i)[0] == b[0]);
        let a1 = a.drop_first().take(i - 1);
        let b1 = b.drop_first().take(i - 1);
        assert(a1 =~= b1) by {
            assert forall|k: int| 0 <= k < i - 1 implies #[trigger] a1[k] == b1[k] by {
                assert(a1[k] == a[k + 1]);
                assert(b1[k] == b[k + 1]);
                assert(a.take(i)[k + 1] == a[k + 1]);
                assert(b.take(i)[k + 1] == b[k + 1]);
            }
        }
        lemma_lex_skip(a.drop_first(), b.drop_first(), i - 1);
        assert(a.drop_first().skip(i - 1) =~= a.skip(i));
        assert(b.drop_first().skip(i - 1) =~= b.skip(i));
    }
}

/// Compares two texts lexicographically.
pub fn compare(a: &Vec<char>, b: &Vec<char>) -> (order: Order)
    ensures
        order == lex_order(a@, b@),
{
    let mut i: usize = 0;
    while i < a.len() && i < b.len()
        invariant
            0 <= i <= a.len(),
            i <= b.len(),
            a@.take(i as int) == b@.take(i as int),
        decreases a.len() - i,
    {
        let x = a[i];
        let y = b[i];
        if x != y {
            proof {
                lemma_lex_skip(a@, b@, i as int);
            }
            return if x < y {
                Order::Less
            } else {
                Order::Greater
            };
        }
        proof {
            assert(a@.take(i + 1) =~= a@.take(i as int).push(a@[i as int]));
            assert(b@.take(i + 1) =~= b@.take(i as int).push(b@[i as int]));
        }
        i = i + 1;
    }
    proof {
        lemma_lex_skip(a@, b@, i as int);
    }
    if i < b.len() {
        Order::Less
    } else if i < a.len() {
        Order::Greater
    } else {
        Order::Equal
    }
}

/// Whether two texts are the same.
pub fn same(a: &Vec<char>, b: &Vec<char>) -> (equal: bool)
    ensures
        equal == (a@ == b@),
{
    proof {
        lemma_lex_equal(a@, b@);
    }
    compare(a, b) == Order::Equal
}

} // verus!
