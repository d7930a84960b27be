//! Byte positions in UTF-8 text, related to character positions.
//!
//! A `&str` is indexed by bytes, its view by characters. The tokenizer walks
//! a text character by character and cuts it at byte positions; the lemmas here
//! show that what it cuts out is the run of characters it meant.
use vstd::prelude::*;
use vstd::string::*;
use vstd::utf8::*;

verus! {

/// The number of bytes that the first `i` characters of `s` take in UTF-8.
pub open spec fn byte_offset(s: Seq<char>, i: int) -> int {
    encode_utf8(s.take(i)).len() as int
}

/// `char::len_utf8` gives the number of bytes that the character takes in
/// UTF-8, which is between one and four.
pub assume_specification[ char::len_utf8 ](c: char) -> (n: usize)
    ensures
        n as int == encode_scalar(c as u32).len(),
        1 <= n <= 4,
;

/// Encoding distributes over concatenation.
pub proof fn lemma_encode_concat(a: Seq<char>, b: Seq<char>)
    ensures
        encode_utf8(a + b) == encode_utf8(a) + encode_utf8(b),
    decreases a.len(),
{
    if a.len() == 0 {
        assert(a + b =~= b);
        assert(encode_utf8(a) + encode_utf8(b) =~= encode_utf8(b));
    } else {
        lemma_encode_concat(a.drop_first(), b);
        assert((a + b).drop_first() =~= a.drop_first() + b);
        assert((a + b)[0] == a[0]);
        assert(encode_utf8(a + b) =~= encode_utf8(a) + encode_utf8(b));
    }
}

/// Two texts with the same encoding are the same text.
pub proof fn lemma_encode_injective(a: Seq<char>, b: Seq<char>)
    requires
        encode_utf8(a) == encode_utf8(b),
    ensures
        a == b,
{
    encode_utf8_decode_utf8(a);
    encode_utf8_decode_utf8(b);
}

/// The encoding of a text is that of its first `i` characters followed by
/// that of the rest.
pub proof fn lemma_encode_split(s: Seq<char>, i: int)
    requires
        0 <= i <= s.len(),
    ensures
        encode_utf8(s) == encode_utf8(s.take(i)) + encode_utf8(s.skip(i)),
        byte_offset(s, i) <= encode_utf8(s).len(),
        encode_utf8(s).subrange(0, byte_offset(s, i)) == encode_utf8(s.take(i)),
        encode_utf8(s).subrange(byte_offset(s, i), encode_utf8(s).len() as int) == encode_utf8(
            s.skip(i),
        ),
{
    assert(s =~= s.take(i) + s.skip(i));
    lemma_encode_concat(s.take(i), s.skip(i));
    let a = encode_utf8(s.take(i));
    let b = encode_utf8(s.skip(i));
    assert((a + b).subrange(0, a.len() as int) =~= a);
    assert((a + b).subrange(a.len() as int, (a + b).len() as int) =~= b);
}

/// Going one character further adds the length of that character's encoding.
pub proof fn lemma_offset_step(s: Seq<char>, i: int)
    requires
        0 <= i < s.len(),
    ensures
        byte_offset(s, i + 1) == byte_offset(s, i) + encode_scalar(s[i] as u32).len(),
        byte_offset(s, i) < byte_offset(s, i + 1),
{
    let one = seq![s[i]];
    assert(s.take(i + 1) =~= s.take(i) + one);
    lemma_encode_concat(s.take(i), one);
    assert(one.drop_first() =~= Seq::<char>::empty());
    assert(encode_utf8(one) =~= encode_scalar(s[i] as u32)) by {
        reveal_with_fuel(encode_utf8, 2);
    }
}

/// Byte offsets grow with character positions.
pub proof fn lemma_offset_monotonic(s: Seq<char>, i: int, j: int)
    requires
        0 <= i <= j <= s.len(),
    ensures
        byte_offset(s, i) <= byte_offset(s, j),
        i < j ==> byte_offset(s, i) < byte_offset(s, j),
    decreases j - i,
{
    if i < j {
        lemma_offset_monotonic(s, i, j - 1);
        lemma_offset_step(s, j - 1);
    }
}

/// The offsets of the two ends of a text.
pub proof fn lemma_offset_ends(s: Seq<char>)
    ensures
        byte_offset(s, 0) == 0,
        byte_offset(s, s.len() as int) == encode_utf8(s).len(),
{
    assert(s.take(0) =~= Seq::<char>::empty());
    assert(s.take(s.len() as int) =~= s);
}

/// A byte position that a number of whole characters leads to is a character
/// boundary.
pub proof fn lemma_offset_is_boundary(s: Seq<char>, i: int)
    requires
        0 <= i <= s.len(),
    ensures
        is_char_boundary(encode_utf8(s), byte_offset(s, i)),
    decreases i,
{
    encode_utf8_valid_utf8(s);
    if i == 0 {
        lemma_offset_ends(s);
    } else {
        let bytes = encode_utf8(s);
        let rest = s.drop_first();
        encode_utf8_first_scalar(s);
        assert(pop_first_scalar(bytes) =~= encode_utf8(rest));
        lemma_offset_is_boundary(rest, i - 1);
        assert(s.take(i) =~= seq![s[0]] + rest.take(i - 1));
        lemma_encode_concat(seq![s[0]], rest.take(i - 1));
        assert(seq![s[0]].drop_first() =~= Seq::<char>::empty());
        assert(encode_utf8(seq![s[0]]) =~= encode_scalar(s[0] as u32)) by {
            reveal_with_fuel(encode_utf8, 2);
        }
        assert(byte_offset(s, i) == length_of_first_scalar(bytes) + byte_offset(rest, i - 1));
        lemma_encode_split(s, i);
    }
}

/// The characters `i..j` of `text`, cut out at the byte positions `from..to`
/// that they occupy.
pub(crate) fn slice<'a>(text: &'a str, from: usize, to: usize, Ghost(i): Ghost<int>, Ghost(j): Ghost<int>) -> (r:
    &'a str)
    requires
        0 <= i <= j <= text@.len(),
        from == byte_offset(text@, i),
        to == byte_offset(text@, j),
    ensures
        r@ == text@.subrange(i, j),
{
    proof {
        lemma_offset_is_boundary(text@, j);
        lemma_encode_split(text@, j);
    }
    let (head, _) = text.split_at(to);
    proof {
        lemma_encode_injective(head@, text@.take(j));
        assert(text@.take(j).take(i) =~= text@.take(i));
        lemma_offset_is_boundary(head@, i);
        lemma_encode_split(head@, i);
    }
    let (_, r) = head.split_at(from);
    proof {
        lemma_encode_injective(r@, head@.skip(i));
        assert(text@.take(j).skip(i) =~= text@.subrange(i, j));
    }
    r
}

} // verus!
