//! Text.

use vstd::prelude::*;
use vstd::utf8::{decode_utf8, encode_utf8, valid_utf8};

verus! {

/// The byte with an ASCII capital letter made small.
pub open spec fn lower(byte: u8) -> u8 {
    if 0x41 <= byte <= 0x5a {
        (byte + 0x20) as u8
    } else {
        byte
    }
}

/// Whether two byte strings agree but for the case of ASCII letters.
pub open spec fn same_letters(left: Seq<u8>, right: Seq<u8>) -> bool {
    left.len() == right.len() && forall|i: int|
        0 <= i < left.len() ==> lower(#[trigger] left[i]) == lower(right[i])
}

/// Whether two texts agree but for the case of ASCII letters.
pub open spec fn same_text(left: Seq<char>, right: Seq<char>) -> bool {
    same_letters(encode_utf8(left), encode_utf8(right))
}

pub fn to_lower(byte: u8) -> (result: u8)
    ensures
        result == lower(byte),
{
    if byte >= 0x41 && byte <= 0x5a {
        byte + 0x20
    } else {
        byte
    }
}

/// Whether two byte strings agree but for the case of ASCII letters.
pub fn bytes_match(left: &[u8], right: &[u8]) -> (result: bool)
    ensures
        result == same_letters(left@, right@),
{
    if left.len() != right.len() {
        return false;
    }
    let mut index: usize = 0;
    while index < left.len()
        invariant
            left@.len() == right@.len(),
            index <= left@.len(),
            forall|i: int| 0 <= i < index ==> lower(#[trigger] left@[i]) == lower(right@[i]),
        decreases left@.len() - index,
    {
        if to_lower(left[index]) != to_lower(right[index]) {
            assert(lower(left@[index as int]) != lower(right@[index as int]));
            return false;
        }
        index = index + 1;
    }
    true
}

/// Whether two texts agree but for the case of ASCII letters.
pub fn text_matches(left: &str, right: &str) -> (result: bool)
    ensures
        result == same_text(left@, right@),
{
    bytes_match(left.as_bytes(), right.as_bytes())
}

/// The text that `String::from_utf8_lossy` makes of bytes.
pub uninterp spec fn lossy_text(bytes: Seq<u8>) -> Seq<char>;

/// Turns bytes into text with `String::from_utf8_lossy`. The text depends on the bytes
/// alone, and of bytes that are UTF-8 it is the text that they encode; what stands for
/// other bytes is not said.
#[verifier::external_body]
pub(crate) fn text_from_bytes(bytes: &[u8]) -> (text: String)
    ensures
        text@ == lossy_text(bytes@),
        valid_utf8(bytes@) ==> text@ == decode_utf8(bytes@),
{
    String::from_utf8_lossy(bytes).into_owned()
}

/// Agreeing but for case is an equivalence: it holds of a text and itself, and does not
/// depend on the order or on a text in between.
pub proof fn law_same_text_is_an_equivalence(first: Seq<char>, second: Seq<char>, third: Seq<char>)
    ensures
        same_text(first, first),
        same_text(first, second) ==> same_text(second, first),
        same_text(first, second) && same_text(second, third) ==> same_text(first, third),
{
    let (a, b, c) = (encode_utf8(first), encode_utf8(second), encode_utf8(third));
    if same_letters(a, b) {
        assert forall|i: int| 0 <= i < b.len() implies lower(#[trigger] b[i]) == lower(a[i]) by {
            assert(lower(a[i]) == lower(b[i]));
        }
        if same_letters(b, c) {
            assert forall|i: int| 0 <= i < a.len() implies lower(#[trigger] a[i]) == lower(
                c[i],
            ) by {
                assert(lower(b[i]) == lower(c[i]));
            }
        }
    }
}

/// Whether two bytes are the same, or the small and the capital form of one ASCII letter.
pub open spec fn same_letter(left: u8, right: u8) -> bool {
    ||| left == right
    ||| 0x41 <= left <= 0x5a && right == left + 0x20
    ||| 0x41 <= right <= 0x5a && left == right + 0x20
}

/// Byte strings agree exactly where they are of one length and each byte is the same, or the
/// other form of the same letter.
pub proof fn law_only_case_is_ignored(left: Seq<u8>, right: Seq<u8>)
    ensures
        same_letters(left, right) <==> left.len() == right.len() && forall|i: int|
            0 <= i < left.len() ==> same_letter(#[trigger] left[i], right[i]),
{
    if same_letters(left, right) {
        assert forall|i: int| 0 <= i < left.len() implies same_letter(
            #[trigger] left[i],
            right[i],
        ) by {
            assert(lower(left[i]) == lower(right[i]));
        }
    }
    if left.len() == right.len() && forall|i: int|
        0 <= i < left.len() ==> same_letter(#[trigger] left[i], right[i]) {
        assert forall|i: int| 0 <= i < left.len() implies lower(#[trigger] left[i]) == lower(
            right[i],
        ) by {
            assert(same_letter(left[i], right[i]));
        }
    }
}

} // verus!
