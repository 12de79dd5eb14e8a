//! Text as bytes: how a character sequence and its UTF-8 encoding correspond.
//!
//! Documents are scanned and written byte by byte, while every contract speaks of
//! characters. The lemmas here carry facts from one side to the other.

use vstd::prelude::*;
use vstd::utf8::*;

verus! {

/// The error of `String::from_utf8` of the standard library. Nothing is read from
/// it, and nothing is claimed of it.
#[verifier::external_type_specification]
#[verifier::external_body]
pub struct ExFromUtf8Error(std::string::FromUtf8Error);

/// `String::from_utf8` of the standard library: it succeeds exactly on well-formed
/// UTF-8, and the text it returns is the one those bytes encode.
pub assume_specification[ String::from_utf8 ](vec: Vec<u8>) -> (text: Result<
    String,
    std::string::FromUtf8Error,
>)
    ensures
        text is Ok <==> valid_utf8(vec@),
        text matches Ok(s) ==> encode_utf8(s@) == vec@,
;

/// The text that `bytes` encode.
pub(crate) fn text_of(bytes: Vec<u8>) -> (text: String)
    requires
        valid_utf8(bytes@),
    ensures
        encode_utf8(text@) == bytes@,
        text@ == decode_utf8(bytes@),
{
    let text = String::from_utf8(bytes).unwrap();
    proof {
        encode_utf8_decode_utf8(text@);
    }
    text
}

/// The number of bytes in the encoding of a character whose encoding starts with `first`.
pub open spec fn encoded_len(first: u8) -> int {
    if first < 0x80 {
        1
    } else if first < 0xe0 {
        2
    } else if first < 0xf0 {
        3
    } else {
        4
    }
}

/// An encoding is the encodings of its parts, one after the other.
pub proof fn lemma_encode_concat(a: Seq<char>, b: Seq<char>)
    ensures
        encode_utf8(a + b) == encode_utf8(a) + encode_utf8(b),
    decreases a.len(),
{
    if a.len() == 0 {
        assert(a + b =~= b);
        assert(encode_utf8(a) + encode_utf8(b) =~= encode_utf8(b));
    } else {
        lemma_encode_concat(a.drop_first(), b);
        assert((a + b).drop_first() =~= a.drop_first() + b);
        assert(encode_utf8(a + b) =~= encode_utf8(a) + encode_utf8(b));
    }
}

/// A character below 0x80 is encoded as the one byte of the same value.
pub proof fn lemma_encode_ascii(c: char)
    requires
        (c as u32) < 0x80,
    ensures
        encode_utf8(seq![c]) == seq![c as u8],
{
    let v = c as u32;
    assert((v & 0x7F) as u8 == v as u8) by (bit_vector)
        requires
            v < 0x80,
    ;
    assert(seq![c].drop_first() =~= Seq::<char>::empty());
    reveal_with_fuel(encode_utf8, 2);
    assert(encode_utf8(seq![c]) =~= seq![c as u8]);
}

/// What the first byte of an encoding tells about the first character: how many
/// bytes it takes, whether it is below 0x80 and then which one it is, and that the
/// rest of the bytes encode the rest of the text.
pub proof fn lemma_encode_first(text: Seq<char>)
    requires
        text.len() > 0,
    ensures
        ({
            let bytes = encode_utf8(text);
            let width = encoded_len(bytes[0]);
            &&& bytes.len() >= width
            &&& bytes.take(width) == encode_utf8(seq![text[0]])
            &&& bytes.skip(width) == encode_utf8(text.drop_first())
            &&& bytes[0] < 0x80 <==> (text[0] as u32) < 0x80
            &&& bytes[0] < 0x80 ==> text[0] == bytes[0] as char && text[0] as u8 == bytes[0]
            &&& forall|i: int| 0 <= i < width && bytes[0] >= 0x80 ==> #[trigger] bytes[i] >= 0x80
        }),
{
    let bytes = encode_utf8(text);
    let head = encode_scalar(text[0] as u32);
    encode_utf8_first_scalar(text);
    assert(bytes == head + encode_utf8(text.drop_first()));
    assert(bytes.take(head.len() as int) =~= head);
    assert(bytes.skip(head.len() as int) =~= encode_utf8(text.drop_first()));
    assert(seq![text[0]].drop_first() =~= Seq::<char>::empty());
    reveal_with_fuel(encode_utf8, 2);
    assert(encode_utf8(seq![text[0]]) =~= head);
    let b = bytes[0];
    if b < 0x80 {
        assert((b & 0x7F) as u32 == b as u32) by (bit_vector)
            requires
                b < 0x80,
        ;
        char_u32_cast(text[0], b as u32);
    }
}

/// What the last byte of an encoding tells about the last character: whether it is
/// below 0x80, and then which one it is.
pub proof fn lemma_encode_last(text: Seq<char>)
    requires
        text.len() > 0,
    ensures
        ({
            let bytes = encode_utf8(text);
            &&& bytes.len() > 0
            &&& bytes.last() < 0x80 <==> (text.last() as u32) < 0x80
            &&& bytes.last() < 0x80 ==> text.last() == bytes.last() as char
        }),
{
    let front = text.drop_last();
    let last = seq![text.last()];
    assert(text =~= front + last);
    lemma_encode_concat(front, last);
    lemma_encode_first(last);
    assert(last.drop_first() =~= Seq::<char>::empty());
    let tail = encode_utf8(last);
    assert(tail.skip(encoded_len(tail[0])).len() == 0);
    assert(encode_utf8(text).last() == tail.last());
}

/// A text ends with a given non-empty text exactly when its bytes end with the
/// bytes of that text; what stands before it is then encoded by the bytes before.
pub proof fn lemma_suffix_encoded(text: Seq<char>, suffix: Seq<char>)
    requires
        suffix.len() > 0,
    ensures
        encode_utf8(suffix).is_suffix_of(encode_utf8(text)) <==> suffix.is_suffix_of(text),
        suffix.is_suffix_of(text) ==> encode_utf8(text).take(
            encode_utf8(text).len() - encode_utf8(suffix).len(),
        ) == encode_utf8(text.take(text.len() - suffix.len())),
{
    let bytes = encode_utf8(text);
    let ending = encode_utf8(suffix);
    if suffix.is_suffix_of(text) {
        let front = text.take(text.len() - suffix.len());
        assert(text =~= front + suffix);
        lemma_encode_concat(front, suffix);
        assert(ending =~= bytes.subrange(bytes.len() - ending.len(), bytes.len() as int));
        assert(bytes.take(bytes.len() - ending.len()) =~= encode_utf8(front));
    }
    if ending.is_suffix_of(bytes) {
        let at = bytes.len() - ending.len();
        encode_utf8_first_scalar(suffix);
        assert(bytes[at] == ending[0]);
        encode_utf8_valid_utf8(text);
        is_char_boundary_iff_not_is_continuation_byte(bytes, at);
        decode_utf8_split(bytes, at);
        encode_utf8_decode_utf8(text);
        encode_utf8_decode_utf8(suffix);
        let front = decode_utf8(bytes.subrange(0, at));
        assert(text =~= front + suffix);
        assert(suffix =~= text.subrange(text.len() - suffix.len(), text.len() as int));
    }
}

} // verus!
