//! Byte lengths of characters and of character sequences in UTF-8, and how
//! positions counted in characters correspond to positions counted in bytes.

use vstd::prelude::*;
use vstd::utf8::*;

verus! {

/// The number of bytes that `c` takes in UTF-8.
pub open spec fn char_width(c: char) -> nat {
    encode_scalar(c as u32).len()
}

/// The number of bytes that `s` takes in UTF-8.
pub open spec fn byte_len(s: Seq<char>) -> nat {
    encode_utf8(s).len()
}

/// `char::len_utf8` returns the number of bytes that the character needs
/// when it is encoded in UTF-8, which is the length of the encoding that
/// `encode_scalar` describes.
pub assume_specification[ char::len_utf8 ](c: char) -> (n: usize)
    ensures
        n == char_width(c),
;

/// A character takes between one and four bytes.
pub proof fn lemma_char_width_bounds(c: char)
    ensures
        1 <= char_width(c) <= 4,
{
}

/// The encoding of a concatenation is the concatenation of the encodings.
pub proof fn lemma_encode_concat(a: Seq<char>, b: Seq<char>)
    ensures
        encode_utf8(a + b) == encode_utf8(a) + encode_utf8(b),
        byte_len(a + b) == byte_len(a) + byte_len(b),
    decreases a.len(),
{
    if a.len() == 0 {
        assert(a + b =~= b);
        assert(encode_utf8(a) + encode_utf8(b) =~= encode_utf8(b));
    } else {
        lemma_encode_concat(a.drop_first(), b);
        assert((a + b).drop_first() =~= a.drop_first() + b);
        assert(encode_utf8(a + b) =~= encode_utf8(a) + encode_utf8(b));
    }
}

/// The encoding of a single character.
pub proof fn lemma_encode_single(c: char)
    ensures
        encode_utf8(seq![c]) == encode_scalar(c as u32),
        byte_len(seq![c]) == char_width(c),
{
    let s = seq![c];
    assert(s.drop_first().len() == 0);
    assert(encode_utf8(s.drop_first()) =~= Seq::<u8>::empty());
    assert(encode_utf8(s) =~= encode_scalar(c as u32));
}

/// Reading one more character moves the byte position by that character's width.
pub proof fn lemma_byte_len_step(s: Seq<char>, i: int)
    requires
        0 <= i < s.len(),
    ensures
        byte_len(s.take(i + 1)) == byte_len(s.take(i)) + char_width(s[i]),
{
    lemma_encode_single(s[i]);
    lemma_encode_concat(s.take(i), seq![s[i]]);
    assert(s.take(i + 1) =~= s.take(i) + seq![s[i]]);
}

/// Byte positions of prefixes grow with the prefix and end at the whole length.
pub proof fn lemma_byte_len_prefix(s: Seq<char>, i: int, j: int)
    requires
        0 <= i <= j <= s.len(),
    ensures
        byte_len(s.take(i)) + byte_len(s.subrange(i, j)) == byte_len(s.take(j)),
        byte_len(s.take(j)) <= byte_len(s),
        byte_len(s.take(s.len() as int)) == byte_len(s),
{
    lemma_encode_concat(s.take(i), s.subrange(i, j));
    assert(s.take(j) =~= s.take(i) + s.subrange(i, j));
    lemma_encode_concat(s.take(j), s.skip(j));
    assert(s =~= s.take(j) + s.skip(j));
    assert(s.take(s.len() as int) =~= s);
}

/// The bytes between the positions of two prefixes are the encoding of the
/// characters between them.
pub proof fn lemma_encode_subrange(s: Seq<char>, i: int, j: int)
    requires
        0 <= i <= j <= s.len(),
    ensures
        byte_len(s.take(i)) <= byte_len(s.take(j)) <= byte_len(s),
        encode_utf8(s).subrange(byte_len(s.take(i)) as int, byte_len(s.take(j)) as int)
            == encode_utf8(s.subrange(i, j)),
{
    lemma_byte_len_prefix(s, i, j);
    lemma_encode_concat(s.take(i), s.subrange(i, j));
    assert(s.take(j) =~= s.take(i) + s.subrange(i, j));
    lemma_encode_concat(s.take(j), s.skip(j));
    assert(s =~= s.take(j) + s.skip(j));
    assert(encode_utf8(s).subrange(byte_len(s.take(i)) as int, byte_len(s.take(j)) as int)
        =~= encode_utf8(s.subrange(i, j)));
}

/// The byte position of a prefix is a character boundary of the encoding.
pub proof fn lemma_prefix_is_boundary(s: Seq<char>, i: int)
    requires
        0 <= i <= s.len(),
    ensures
        is_char_boundary(encode_utf8(s), byte_len(s.take(i)) as int),
    decreases i,
{
    broadcast use encode_utf8_valid_utf8;

    let bytes = encode_utf8(s);
    if i == 0 {
        assert(s.take(0).len() == 0);
    } else {
        let rest = s.drop_first();
        encode_utf8_first_scalar(s);
        assert(pop_first_scalar(bytes) =~= encode_utf8(rest));
        lemma_prefix_is_boundary(rest, i - 1);
        lemma_byte_len_prefix(s, 0, i);
        lemma_byte_len_step(s, 0);
        assert(s.take(1) =~= seq![s[0]]);
        lemma_encode_single(s[0]);
        lemma_encode_concat(seq![s[0]], rest.take(i - 1));
        assert(s.take(i) =~= seq![s[0]] + rest.take(i - 1));
        assert(byte_len(s.take(i)) - length_of_first_scalar(bytes) == byte_len(rest.take(i - 1)));
        assert(byte_len(s.take(i)) > 0);
    }
}

/// Two character sequences with the same encoding are the same.
pub proof fn lemma_encode_injective(a: Seq<char>, b: Seq<char>)
    requires
        encode_utf8(a) == encode_utf8(b),
    ensures
        a == b,
{
    encode_utf8_decode_utf8(a);
    encode_utf8_decode_utf8(b);
}

} // verus!
