//! Facts about UTF-8 text that the byte-level scanning of callbacks needs:
//! ASCII delimiters fall on character boundaries, so the text between two
//! of them is itself valid UTF-8.
use vstd::prelude::*;
use vstd::utf8::{
    encode_utf8,
    is_char_boundary, is_char_boundary_iff_not_is_continuation_byte,
    is_char_boundary_start_end_of_seq, is_continuation_byte, valid_first_scalar, valid_utf8,
    valid_utf8_split, pop_first_scalar,
};
use crate::text::{contains, occurs_at};

verus! {

/// UTF-8 encoding distributes over concatenation.
pub proof fn lemma_encode_concat(a: Seq<char>, b: Seq<char>)
    ensures
        encode_utf8(a + b) == encode_utf8(a) + encode_utf8(b),
    decreases a.len(),
{
    if a.len() == 0 {
        assert(a + b =~= b);
        assert(encode_utf8(a) =~= Seq::<u8>::empty());
        assert(encode_utf8(a) + encode_utf8(b) =~= encode_utf8(b));
    } else {
        lemma_encode_concat(a.drop_first(), b);
        assert((a + b).drop_first() =~= a.drop_first() + b);
        assert((a + b)[0] == a[0]);
        assert(encode_utf8(a + b) =~= encode_utf8(a) + encode_utf8(b));
    }
}

/// An ASCII byte of valid UTF-8 starts a character, and so does the byte
/// after it.
pub proof fn lemma_ascii_boundary(bytes: Seq<u8>, i: int)
    requires
        valid_utf8(bytes),
        0 <= i < bytes.len(),
        bytes[i] < 0x80,
    ensures
        is_char_boundary(bytes, i),
        is_char_boundary(bytes, i + 1),
{
    is_char_boundary_iff_not_is_continuation_byte(bytes, i);
    valid_utf8_split(bytes, i);
    let rest = bytes.subrange(i, bytes.len() as int);
    assert(rest[0] == bytes[i]);
    assert(valid_first_scalar(rest));
    let after = pop_first_scalar(rest);
    assert(after =~= bytes.subrange(i + 1, bytes.len() as int));
    if i + 1 == bytes.len() {
        is_char_boundary_start_end_of_seq(bytes);
    } else {
        assert(valid_utf8(after));
        assert(valid_first_scalar(after));
        assert(after[0] == bytes[i + 1]);
        assert(!is_continuation_byte(bytes[i + 1]));
        is_char_boundary_iff_not_is_continuation_byte(bytes, i + 1);
    }
}

/// The bytes between two character boundaries of valid UTF-8 are valid
/// UTF-8, and the second boundary is a boundary of the text after the
/// first one.
pub proof fn lemma_valid_between(bytes: Seq<u8>, a: int, b: int)
    requires
        valid_utf8(bytes),
        0 <= a <= b <= bytes.len(),
        is_char_boundary(bytes, a),
        is_char_boundary(bytes, b),
    ensures
        valid_utf8(bytes.subrange(a, b)),
        valid_utf8(bytes.subrange(a, bytes.len() as int)),
        is_char_boundary(bytes.subrange(a, bytes.len() as int), b - a),
{
    let tail = bytes.subrange(a, bytes.len() as int);
    valid_utf8_split(bytes, a);
    if b == bytes.len() {
        is_char_boundary_start_end_of_seq(tail);
        assert(tail.subrange(b - a, tail.len() as int).len() == 0);
    } else {
        is_char_boundary_iff_not_is_continuation_byte(bytes, b);
        assert(tail[b - a] == bytes[b]);
        is_char_boundary_iff_not_is_continuation_byte(tail, b - a);
    }
    valid_utf8_split(tail, b - a);
    assert(tail.subrange(0, b - a) =~= bytes.subrange(a, b));
}

/// A text whose encoding holds no line feed byte holds no line break.
pub proof fn lemma_no_newline(c: Seq<char>)
    requires
        !contains(encode_utf8(c), seq![10u8]),
    ensures
        !contains(c, "\n"@),
{
    reveal_strlit("\n");
    if contains(c, "\n"@) {
        let i = choose|i: int| occurs_at(c, "\n"@, i);
        assert(c.subrange(i, i + 1) == "\n"@);
        let pre = c.subrange(0, i);
        let post = c.subrange(i + 1, c.len() as int);
        assert(c =~= pre + "\n"@ + post);
        lemma_encode_concat(pre + "\n"@, post);
        lemma_encode_concat(pre, "\n"@);
        assert("\n"@.drop_first() =~= Seq::<char>::empty());
        assert(encode_utf8("\n"@) =~= seq![10u8]) by {
            assert(vstd::utf8::is_ascii_chars("\n"@));
            vstd::utf8::is_ascii_chars_encode_utf8("\n"@);
            assert(("\n"@)[0] as u8 == 10u8);
        }
        let e = encode_utf8(c);
        let k = encode_utf8(pre).len() as int;
        assert(e.subrange(k, k + 1) =~= seq![10u8]);
        assert(occurs_at(e, seq![10u8], k));
    }
}

} // verus!
