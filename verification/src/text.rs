//! Text and its encoding in UTF-8.

use vstd::prelude::*;
use vstd::utf8::{encode_scalar, encode_utf8};

verus! {

/// The encoding of an ASCII character is one byte, which occurs in the encoding of no other
/// character.
pub proof fn lemma_encode_char(c: char, ascii: char)
    requires
        ascii as u32 <= 0x7f,
    ensures
        encode_scalar(c as u32).len() > 0,
        c == ascii ==> encode_scalar(c as u32) == seq![ascii as u8],
        c != ascii ==> !encode_scalar(c as u32).contains(ascii as u8),
{
    let v = c as u32;
    assert(v <= 0x7f ==> (v & 0x7f) as u8 == v) by (bit_vector);
    assert(forall|x: u8| #[trigger] (0x80u8 | x) >= 0x80) by (bit_vector);
    assert(forall|x: u8| #[trigger] (0xc0u8 | x) >= 0x80) by (bit_vector);
    assert(forall|x: u8| #[trigger] (0xe0u8 | x) >= 0x80) by (bit_vector);
    assert(forall|x: u8| #[trigger] (0xf0u8 | x) >= 0x80) by (bit_vector);
}

/// Text is encoded piece by piece.
pub proof fn lemma_encode_concat(a: Seq<char>, b: Seq<char>)
    ensures
        encode_utf8(a + b) == encode_utf8(a) + encode_utf8(b),
    decreases a.len(),
{
    if a.len() == 0 {
        assert(a + b =~= b);
    } else {
        lemma_encode_concat(a.drop_first(), b);
        assert((a + b).drop_first() =~= a.drop_first() + b);
    }
}

/// The encoding of a single character.
pub proof fn lemma_encode_one(c: char)
    ensures
        encode_utf8(seq![c]) == encode_scalar(c as u32),
{
    assert(seq![c].drop_first() =~= Seq::<char>::empty());
    assert(encode_utf8(Seq::<char>::empty()) =~= Seq::<u8>::empty());
}

/// An ASCII character occurs in a text exactly if its byte occurs in the encoding of the text.
pub proof fn lemma_encode_contains(text: Seq<char>, ascii: char)
    requires
        ascii as u32 <= 0x7f,
    ensures
        encode_utf8(text).contains(ascii as u8) == text.contains(ascii),
    decreases text.len(),
{
    if text.len() > 0 {
        let rest = text.drop_first();
        let head = encode_scalar(text[0] as u32);
        let tail = encode_utf8(rest);
        let all = encode_utf8(text);
        lemma_encode_contains(rest, ascii);
        lemma_encode_char(text[0], ascii);
        if text.contains(ascii) {
            if text[0] == ascii {
                assert(all[0] == ascii as u8);
            } else {
                let i = choose|i: int| 0 <= i < text.len() && text[i] == ascii;
                assert(rest[i - 1] == ascii);
                let j = choose|j: int| 0 <= j < tail.len() && tail[j] == ascii as u8;
                assert(all[head.len() + j] == ascii as u8);
            }
        }
        if all.contains(ascii as u8) {
            let j = choose|j: int| 0 <= j < all.len() && all[j] == ascii as u8;
            if j < head.len() {
                assert(head.contains(head[j]));
                assert(text[0] == ascii);
            } else {
                assert(tail.contains(tail[j - head.len()]));
                let i = choose|i: int| 0 <= i < rest.len() && rest[i] == ascii;
                assert(text[i + 1] == ascii);
            }
        }
    }
}

} // verus!
