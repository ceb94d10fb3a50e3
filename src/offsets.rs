//! The offset index: for each character of a text, the byte at which its
//! UTF-8 encoding starts, followed by the text's byte length.

use vstd::prelude::*;
use vstd::utf8::*;

verus! {

broadcast use vstd::string::group_string_axioms;

/// Byte offset at which the character with ordinal `i` starts in the UTF-8
/// encoding of `s` (the byte length of `s` when `i == s.len()`).
pub open spec fn byte_offset(s: Seq<char>, i: int) -> int {
    encode_utf8(s.take(i)).len() as int
}

/// Encoding a concatenation encodes each part in turn.
pub proof fn lemma_encode_concat(a: Seq<char>, b: Seq<char>)
    ensures
        encode_utf8(a + b) == encode_utf8(a) + encode_utf8(b),
    decreases a.len(),
{
    if a.len() == 0 {
        assert(a + b =~= b);
        assert(encode_utf8(a) + encode_utf8(b) =~= encode_utf8(b));
    } else {
        lemma_encode_concat(a.drop_first(), b);
        assert((a + b).drop_first() =~= a.drop_first() + b);
        assert(encode_utf8(a + b) =~= encode_utf8(a) + encode_utf8(b));
    }
}

/// Two character sequences with the same encoding are equal.
pub proof fn lemma_encode_injective(a: Seq<char>, b: Seq<char>)
    requires
        encode_utf8(a) == encode_utf8(b),
    ensures
        a == b,
{
    encode_utf8_decode_utf8(a);
    encode_utf8_decode_utf8(b);
}

/// The encoding of a prefix is the prefix of the encoding.
pub proof fn lemma_encode_take(s: Seq<char>, i: int)
    requires
        0 <= i <= s.len(),
    ensures
        encode_utf8(s) == encode_utf8(s.take(i)) + encode_utf8(s.skip(i)),
        encode_utf8(s.take(i)) == encode_utf8(s).take(byte_offset(s, i)),
        encode_utf8(s.skip(i)) == encode_utf8(s).skip(byte_offset(s, i)),
{
    assert(s =~= s.take(i) + s.skip(i));
    lemma_encode_concat(s.take(i), s.skip(i));
    assert(encode_utf8(s.take(i)) =~= encode_utf8(s).take(byte_offset(s, i)));
    assert(encode_utf8(s.skip(i)) =~= encode_utf8(s).skip(byte_offset(s, i)));
}

/// One more character moves the offset by the width of its encoding.
pub proof fn lemma_byte_offset_step(s: Seq<char>, i: int)
    requires
        0 <= i < s.len(),
    ensures
        byte_offset(s, i + 1) == byte_offset(s, i) + encode_scalar(s[i] as u32).len(),
        1 <= encode_scalar(s[i] as u32).len() <= 4,
{
    let one = seq![s[i]];
    assert(s.take(i + 1) =~= s.take(i) + one);
    lemma_encode_concat(s.take(i), one);
    assert(one.drop_first() =~= Seq::<char>::empty());
    assert(encode_utf8(one) == encode_scalar(one[0] as u32) + encode_utf8(one.drop_first()));
    assert(encode_utf8(one) =~= encode_scalar(s[i] as u32));
}

/// Offsets grow with the ordinal, strictly, and end at the byte length.
pub proof fn lemma_byte_offset_mono(s: Seq<char>, i: int, j: int)
    requires
        0 <= i <= j <= s.len(),
    ensures
        byte_offset(s, i) + (j - i) <= byte_offset(s, j),
        byte_offset(s, j) <= encode_utf8(s).len(),
        byte_offset(s, 0) == 0,
        byte_offset(s, s.len() as int) == encode_utf8(s).len(),
    decreases j - i,
{
    assert(s.take(0) =~= Seq::<char>::empty());
    assert(s.take(s.len() as int) =~= s);
    lemma_encode_take(s, j);
    if i < j {
        lemma_byte_offset_step(s, i);
        lemma_byte_offset_mono(s, i + 1, j);
    }
}

/// The offset of every character ordinal is a character boundary of the encoding.
pub proof fn lemma_byte_offset_boundary(s: Seq<char>, i: int)
    requires
        0 <= i <= s.len(),
    ensures
        is_char_boundary(encode_utf8(s), byte_offset(s, i)),
    decreases s.len(),
{
    let bytes = encode_utf8(s);
    encode_utf8_valid_utf8(s);
    if i == 0 {
        assert(s.take(0) =~= Seq::<char>::empty());
    } else {
        let t = s.drop_first();
        encode_utf8_first_scalar(s);
        assert(pop_first_scalar(bytes) =~= encode_utf8(t));
        assert(s.take(i).drop_first() =~= t.take(i - 1));
        lemma_byte_offset_boundary(t, i - 1);
        lemma_byte_offset_mono(s, i, s.len() as int);
    }
}

/// Width in bytes of the UTF-8 encoding of `c`.
pub fn utf8_width(c: char) -> (w: usize)
    ensures
        w == encode_scalar(c as u32).len(),
{
    proof {
        char_is_scalar(c);
    }
    let u = c as u32;
    if u < 0x80 {
        1
    } else if u < 0x800 {
        2
    } else if u < 0x10000 {
        3
    } else {
        4
    }
}

/// Builds the offset index of `text`: entry `i` is the byte offset of the
/// character with ordinal `i`, and the last entry is the byte length.
pub fn offset_index(text: &str) -> (r: Vec<usize>)
    ensures
        r@.len() == text@.len() + 1,
        forall|i: int| 0 <= i <= text@.len() ==> r@[i] as int == byte_offset(text@, i),
        r@[text@.len() as int] == encode_utf8(text@).len(),
{
    let ghost s = text@;
    let len: usize = text.as_bytes().len();
    let mut r: Vec<usize> = Vec::new();
    let mut pos: usize = 0;
    proof {
        lemma_byte_offset_mono(s, 0, s.len() as int);
    }
    for c in it: text.chars()
        invariant
            it.seq() == s,
            s == text@,
            0 <= it.index() <= s.len(),
            r@.len() == it.index(),
            pos as int == byte_offset(s, it.index() as int),
            forall|i: int| 0 <= i < r@.len() ==> r@[i] as int == byte_offset(s, i),
            encode_utf8(s).len() == len,
    {
        let ghost k = it.index() as int;
        proof {
            lemma_byte_offset_step(s, k);
            lemma_byte_offset_mono(s, k + 1, s.len() as int);
        }
        r.push(pos);
        pos = pos + utf8_width(c);
    }
    proof {
        lemma_byte_offset_mono(s, 0, s.len() as int);
    }
    r.push(len);
    r
}

} // verus!
