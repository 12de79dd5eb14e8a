//! The scanner: from the bytes of a document to its pieces.

use vstd::prelude::*;
use vstd::utf8::*;
use crate::component::{HTMLComponent, Token};
use crate::document::MDFile;
use crate::encoding::{
    encoded_len, lemma_encode_ascii, lemma_encode_concat, lemma_encode_first, text_of,
};
use crate::grammar::{
    bracket_body, bracket_len, escape, lemma_escape_len, lemma_position_bounds, position, scan,
    span_body, span_len, tokenize,
};

verus! {

/// The byte `[`.
pub const OPENING: u8 = 0x5b;

/// The byte `]`.
pub const CLOSING: u8 = 0x5d;

/// Where the character that starts at the head of `rest` ends, counted in bytes:
/// the length that its first byte announces, or all of `rest` if that is less.
pub open spec fn first_char_len(rest: Seq<u8>) -> int {
    if rest.len() == 0 {
        0
    } else if encoded_len(rest[0]) <= rest.len() {
        encoded_len(rest[0])
    } else {
        rest.len() as int
    }
}

/// The number of bytes that reading a bracketed span at the head of `rest` uses up:
/// none at the end of the input, one whole character where that is no opening
/// bracket, and otherwise the span with its brackets.
pub open spec fn byte_span_len(rest: Seq<u8>) -> int {
    if rest.len() > 0 && rest[0] != OPENING {
        first_char_len(rest)
    } else {
        span_len(rest, OPENING, CLOSING)
    }
}

/// What is left of `content` from `cursor` on; nothing if `cursor` is past the end.
pub open spec fn remaining(content: Seq<u8>, cursor: usize) -> Seq<u8> {
    if cursor <= content.len() {
        content.skip(cursor as int)
    } else {
        Seq::empty()
    }
}

/// `position` is the only index that has the target, or the end, right after a
/// stretch without it.
pub proof fn lemma_position_unique<T>(items: Seq<T>, target: T, at: int)
    requires
        0 <= at <= items.len(),
        forall|i: int| 0 <= i < at ==> items[i] != target,
        at < items.len() ==> items[at] == target,
    ensures
        position(items, target) == at,
    decreases items.len(),
{
    if items.len() == 0 || items[0] == target {
    } else {
        let tail = items.drop_first();
        assert forall|i: int| 0 <= i < at - 1 implies tail[i] != target by {
            assert(tail[i] == items[i + 1]);
        }
        lemma_position_unique(tail, target, at - 1);
    }
}

/// Looking for `]` among the bytes of a text finds what looking among its
/// characters finds: the bytes before it encode the characters before it, and the
/// bytes from it on encode the characters from it on.
pub proof fn lemma_position_encoded(text: Seq<char>)
    ensures
        ({
            let bytes = encode_utf8(text);
            let chars_before = position(text, ']');
            let bytes_before = position(bytes, CLOSING);
            &&& bytes.take(bytes_before) == encode_utf8(text.take(chars_before))
            &&& bytes.skip(bytes_before) == encode_utf8(text.skip(chars_before))
            &&& bytes_before < bytes.len() <==> chars_before < text.len()
        }),
    decreases text.len(),
{
    let bytes = encode_utf8(text);
    if text.len() == 0 {
        assert(bytes.take(0) =~= encode_utf8(text.take(0)));
        assert(bytes.skip(0) =~= encode_utf8(text.skip(0)));
    } else {
        lemma_encode_first(text);
        let width = encoded_len(bytes[0]);
        let tail = text.drop_first();
        let tail_bytes = bytes.skip(width);
        if text[0] == ']' {
            assert(bytes.take(0) =~= Seq::<u8>::empty());
            assert(text.take(0) =~= Seq::<char>::empty());
            assert(bytes.skip(0) =~= bytes);
            assert(text.skip(0) =~= text);
        } else {
            lemma_position_encoded(tail);
            lemma_position_bounds(tail, ']');
            lemma_position_bounds(tail_bytes, CLOSING);
            let chars_before = position(tail, ']');
            let bytes_before = position(tail_bytes, CLOSING);
            assert forall|i: int| 0 <= i < width + bytes_before implies bytes[i] != CLOSING by {
                if i >= width {
                    assert(bytes[i] == tail_bytes[i - width]);
                }
            }
            if width + bytes_before < bytes.len() {
                assert(bytes[width + bytes_before] == tail_bytes[bytes_before]);
            }
            lemma_position_unique(bytes, CLOSING, width + bytes_before);
            lemma_encode_concat(seq![text[0]], tail.take(chars_before));
            assert(text.take(1 + chars_before) =~= seq![text[0]] + tail.take(chars_before));
            assert(bytes.take(width + bytes_before) =~= bytes.take(width) + tail_bytes.take(
                bytes_before,
            ));
            assert(bytes.skip(width + bytes_before) =~= tail_bytes.skip(bytes_before));
            assert(text.skip(1 + chars_before) =~= tail.skip(chars_before));
        }
    }
}

/// Reading a span from the bytes of a text reads the encoding of the span that the
/// characters hold, and leaves the encoding of the characters behind it.
pub proof fn lemma_span_encoded(rest: Seq<char>)
    ensures
        ({
            let bytes = encode_utf8(rest);
            &&& 0 <= byte_span_len(bytes) <= bytes.len()
            &&& 0 <= bracket_len(rest) <= rest.len()
            &&& bytes.skip(byte_span_len(bytes)) == encode_utf8(rest.skip(bracket_len(rest)))
            &&& match span_body(bytes, OPENING, CLOSING) {
                Some(body) => bracket_body(rest) is Some && body == encode_utf8(
                    bracket_body(rest)->0,
                ),
                None => bracket_body(rest) is None,
            }
        }),
{
    let bytes = encode_utf8(rest);
    if rest.len() == 0 {
        assert(bytes.skip(0) =~= encode_utf8(rest.skip(0)));
    } else {
        lemma_encode_first(rest);
        let tail = rest.drop_first();
        assert(rest.skip(1) =~= tail);
        if rest[0] == '[' {
            assert(bytes.skip(1) =~= bytes.drop_first());
            let inner = bytes.drop_first();
            lemma_position_encoded(tail);
            lemma_position_bounds(tail, ']');
            lemma_position_bounds(inner, CLOSING);
            let chars_before = position(tail, ']');
            let bytes_before = position(inner, CLOSING);
            if chars_before < tail.len() {
                lemma_encode_first(tail.skip(chars_before));
                assert(tail.skip(chars_before).drop_first() =~= rest.skip(chars_before + 2));
                assert(inner.skip(bytes_before).skip(1) =~= bytes.skip(bytes_before + 2));
            } else {
                assert(tail.skip(chars_before) =~= rest.skip(chars_before + 1));
                assert(inner.skip(bytes_before) =~= bytes.skip(bytes_before + 1));
            }
        }
    }
}

/// The end of the character that starts at `at`, not past the end of `content`.
fn char_end(content: &[u8], at: usize) -> (end: usize)
    requires
        at < content.len(),
    ensures
        end == at + first_char_len(content@.skip(at as int)),
        at < end <= content.len(),
{
    let first = content[at];
    let width: usize = if first < 0x80 {
        1
    } else if first < 0xe0 {
        2
    } else if first < 0xf0 {
        3
    } else {
        4
    };
    if content.len() - at >= width {
        at + width
    } else {
        content.len()
    }
}

/// Where a cursor stands at the head of an encoded text, the character there can
/// be told from its first byte, and the cursor can step over it.
pub proof fn lemma_cursor_step(content: Seq<u8>, cursor: int, rest: Seq<char>)
    requires
        0 <= cursor < content.len(),
        content.skip(cursor) == encode_utf8(rest),
    ensures
        rest.len() > 0,
        ({
            let width = encoded_len(content[cursor]);
            &&& cursor + width <= content.len()
            &&& first_char_len(content.skip(cursor)) == width
            &&& content.subrange(cursor, cursor + width) == encode_utf8(seq![rest[0]])
            &&& content.skip(cursor + width) == encode_utf8(rest.drop_first())
            &&& content[cursor] < 0x80 <==> (rest[0] as u32) < 0x80
            &&& content[cursor] < 0x80 ==> rest[0] == content[cursor] as char
        }),
{
    let bytes = content.skip(cursor);
    assert(bytes[0] == content[cursor]);
    if rest.len() == 0 {
        assert(encode_utf8(rest).len() == 0);
    }
    lemma_encode_first(rest);
    let width = encoded_len(content[cursor]);
    assert(bytes.take(width) =~= content.subrange(cursor, cursor + width));
    assert(bytes.skip(width) =~= content.skip(cursor + width));
}

/// The text that the bytes of a span encode.
fn span_text(span: Vec<u8>, Ghost(body): Ghost<Seq<char>>) -> (text: String)
    requires
        span@ == encode_utf8(body),
    ensures
        text@ == body,
{
    proof {
        encode_utf8_valid_utf8(body);
        encode_utf8_decode_utf8(body);
    }
    text_of(span)
}

/// Reads a bracketed span at `cursor` as text.
fn read_span(content: &[u8], cursor: &mut usize, Ghost(rest): Ghost<Seq<char>>) -> (span: Option<
    String,
>)
    requires
        *old(cursor) <= content.len(),
        content@.skip(*old(cursor) as int) == encode_utf8(rest),
    ensures
        *old(cursor) <= *final(cursor) <= content.len(),
        0 <= bracket_len(rest) <= rest.len(),
        content@.skip(*final(cursor) as int) == encode_utf8(rest.skip(bracket_len(rest))),
        match span {
            Some(text) => bracket_body(rest) == Some(text@),
            None => bracket_body(rest) is None,
        },
{
    proof {
        lemma_span_encoded(rest);
    }
    match MDFile::get_bracket_internal(content, cursor) {
        Some(bytes) => Some(span_text(bytes, Ghost(bracket_body(rest)->0))),
        None => None,
    }
}

/// Reads what follows a backslash: the selector and, where it takes any, its
/// spans. The piece that the escape yields is added to `html_components`; an
/// escaped backslash starts the next run of content in `content_string`.
fn read_escape(
    content: &[u8],
    cursor: &mut usize,
    html_components: &mut Vec<HTMLComponent>,
    content_string: &mut Vec<u8>,
    Ghost(rest): Ghost<Seq<char>>,
)
    requires
        *old(cursor) <= content.len(),
        content@.skip(*old(cursor) as int) == encode_utf8(rest),
        old(content_string)@.len() == 0,
    ensures
        *old(cursor) <= *final(cursor) <= content.len(),
        0 <= escape(rest).len <= rest.len(),
        content@.skip(*final(cursor) as int) == encode_utf8(rest.skip(escape(rest).len)),
        final(html_components).deep_view() == old(html_components).deep_view() + escape(
            rest,
        ).pieces,
        final(content_string)@ == encode_utf8(escape(rest).pending),
{
    let ghost before = html_components.deep_view();
    proof {
        lemma_escape_len(rest);
    }
    if *cursor >= content.len() {
        proof {
            if rest.len() > 0 {
                lemma_encode_first(rest);
            }
            assert(rest.skip(0) =~= rest);
            assert(before + escape(rest).pieces =~= before);
        }
        return ;
    }
    proof {
        lemma_cursor_step(content@, *cursor as int, rest);
    }
    let ghost tail = rest.drop_first();
    let selector = content[*cursor];
    if selector == 0x5c {
        content_string.push(0x5c);
        *cursor += 1;
        proof {
            assert(rest.skip(1) =~= tail);
            lemma_encode_ascii('\\');
            assert(content_string@ =~= seq![0x5cu8]);
            assert(before + escape(rest).pieces =~= before);
        }
    } else if selector == 0x68 {
        *cursor += 1;
        match read_span(content, cursor, Ghost(tail)) {
            Some(code) => {
                html_components.push(HTMLComponent::RawHTML(code));
            },
            None => {},
        }
        proof {
            assert(rest.skip(1 + bracket_len(tail)) =~= tail.skip(bracket_len(tail)));
            assert(html_components.deep_view() =~= before + escape(rest).pieces);
        }
    } else if selector == 0x69 {
        *cursor += 1;
        match read_span(content, cursor, Ghost(tail)) {
            Some(address) => {
                html_components.push(HTMLComponent::Image(address));
            },
            None => {},
        }
        proof {
            assert(rest.skip(1 + bracket_len(tail)) =~= tail.skip(bracket_len(tail)));
            assert(html_components.deep_view() =~= before + escape(rest).pieces);
        }
    } else if selector == 0x6c {
        *cursor += 1;
        let ghost second = tail.skip(bracket_len(tail));
        match read_span(content, cursor, Ghost(tail)) {
            Some(display) => {
                match read_span(content, cursor, Ghost(second)) {
                    Some(hyperlink) => {
                        html_components.push(HTMLComponent::Link(display, hyperlink));
                    },
                    None => {},
                }
                proof {
                    assert(rest.skip(1 + bracket_len(tail) + bracket_len(second)) =~= second.skip(
                        bracket_len(second),
                    ));
                }
            },
            None => {
                proof {
                    assert(rest.skip(1 + bracket_len(tail)) =~= second);
                }
            },
        }
        proof {
            assert(html_components.deep_view() =~= before + escape(rest).pieces);
        }
    } else if 0x31 <= selector && selector <= 0x36 {
        html_components.push(HTMLComponent::Heading((selector - 0x30) as i32));
        *cursor += 1;
        proof {
            assert(rest.skip(1) =~= tail);
            assert(html_components.deep_view() =~= before + escape(rest).pieces);
        }
    } else {
        *cursor = char_end(content, *cursor);
        proof {
            assert(rest.skip(1) =~= tail);
            assert(before + escape(rest).pieces =~= before);
        }
    }
}

impl MDFile {
    /// Cuts the document into its pieces. It never fails: what is no markup is
    /// content, and an escape that is not understood is dropped.
    pub fn get_html_components_iter(&self) -> (components: Result<Vec<HTMLComponent>, &str>)
        ensures
            components is Ok,
            components->Ok_0.deep_view() == tokenize(self.contents@),
    {
        let content_bytes = self.contents.as_str().as_bytes();
        let mut cursor: usize = 0;
        let mut html_components: Vec<HTMLComponent> = Vec::new();
        let mut content_string: Vec<u8> = Vec::new();
        let ghost mut rest = self.contents@;
        let ghost mut pending = Seq::<char>::empty();
        proof {
            assert(content_bytes@.skip(0) =~= content_bytes@);
            assert(html_components.deep_view() + scan(rest, pending) =~= tokenize(self.contents@));
        }
        while cursor < content_bytes.len()
            invariant
                cursor <= content_bytes.len(),
                content_bytes@.skip(cursor as int) == encode_utf8(rest),
                content_string@ == encode_utf8(pending),
                html_components.deep_view() + scan(rest, pending) == tokenize(self.contents@),
            decreases content_bytes.len() - cursor,
        {
            proof {
                lemma_cursor_step(content_bytes@, cursor as int, rest);
            }
            let ghost before = html_components.deep_view();
            let ghost first = rest[0];
            let ghost tail = rest.drop_first();
            let byte = content_bytes[cursor];
            if byte == 0x0a {
                cursor += 1;
                let text = span_text(content_string, Ghost(pending));
                html_components.push(HTMLComponent::Content(text));
                content_string = Vec::new();
                html_components.push(HTMLComponent::NewLine);
                proof {
                    assert(html_components.deep_view() =~= before + seq![
                        Token::Content(pending),
                        Token::NewLine,
                    ]);
                    assert(html_components.deep_view() + scan(tail, Seq::empty()) =~= before
                        + scan(rest, pending));
                    rest = tail;
                    pending = Seq::empty();
                }
            } else if byte == 0x0d {
                cursor += 1;
                proof {
                    rest = tail;
                }
            } else if byte == 0x5c {
                cursor += 1;
                let text = span_text(content_string, Ghost(pending));
                html_components.push(HTMLComponent::Content(text));
                content_string = Vec::new();
                let ghost flushed = html_components.deep_view();
                read_escape(
                    content_bytes,
                    &mut cursor,
                    &mut html_components,
                    &mut content_string,
                    Ghost(tail),
                );
                proof {
                    let found = escape(tail);
                    assert(flushed =~= before + seq![Token::Content(pending)]);
                    assert(tail.skip(found.len) =~= rest.skip(1 + found.len));
                    assert(html_components.deep_view() + scan(
                        rest.skip(1 + found.len),
                        found.pending,
                    ) =~= before + scan(rest, pending));
                    rest = rest.skip(1 + found.len);
                    pending = found.pending;
                }
            } else {
                let start = cursor;
                let end = char_end(content_bytes, cursor);
                let ghost held = content_string@;
                while cursor < end
                    invariant
                        start <= cursor <= end <= content_bytes.len(),
                        content_string@ == held + content_bytes@.subrange(
                            start as int,
                            cursor as int,
                        ),
                    decreases end - cursor,
                {
                    content_string.push(content_bytes[cursor]);
                    cursor += 1;
                    assert(content_string@ =~= held + content_bytes@.subrange(
                        start as int,
                        cursor as int,
                    ));
                }
                proof {
                    lemma_encode_concat(pending, seq![first]);
                    assert(pending.push(first) =~= pending + seq![first]);
                    rest = tail;
                    pending = pending.push(first);
                }
            }
        }
        proof {
            if rest.len() > 0 {
                lemma_encode_first(rest);
            }
        }
        let text = span_text(content_string, Ghost(pending));
        html_components.push(HTMLComponent::Content(text));
        html_components.push(HTMLComponent::NewLine);
        proof {
            assert(html_components.deep_view() =~= tokenize(self.contents@));
        }
        Ok(html_components)
    }

    /// Reads a bracketed span at `cursor` and moves `cursor` behind what it read.
    ///
    /// At the end of the input nothing is read. A character other than `[` is read
    /// and there is no span. After `[` the span is every byte up to the first `]`,
    /// which is read too, or up to the end of the input where no `]` follows.
    pub fn get_bracket_internal(content: &[u8], cursor: &mut usize) -> (span: Option<Vec<u8>>)
        ensures
            match span {
                Some(bytes) => span_body(remaining(content@, *old(cursor)), OPENING, CLOSING)
                    == Some(bytes@),
                None => span_body(remaining(content@, *old(cursor)), OPENING, CLOSING) is None,
            },
            *final(cursor) == *old(cursor) + byte_span_len(remaining(content@, *old(cursor))),
    {
        if *cursor >= content.len() {
            return None;
        }
        let ghost start = *cursor as int;
        let ghost rest = content@.skip(start);
        if content[*cursor] != OPENING {
            *cursor = char_end(content, *cursor);
            return None;
        }
        *cursor += 1;
        let mut bytes: Vec<u8> = Vec::new();
        while *cursor < content.len() && content[*cursor] != CLOSING
            invariant
                0 <= start < *cursor <= content.len(),
                bytes@ == content@.subrange(start + 1, *cursor as int),
                forall|i: int| start < i < *cursor ==> content@[i] != CLOSING,
            decreases content.len() - *cursor,
        {
            bytes.push(content[*cursor]);
            *cursor += 1;
            assert(bytes@ =~= content@.subrange(start + 1, *cursor as int));
        }
        proof {
            let inner = rest.drop_first();
            let found = *cursor - start - 1;
            assert forall|i: int| 0 <= i < found implies inner[i] != CLOSING by {
                assert(inner[i] == content@[start + 1 + i]);
            }
            lemma_position_unique(inner, CLOSING, found);
            assert(bytes@ =~= inner.take(found));
        }
        if *cursor < content.len() {
            *cursor += 1;
        }
        Some(bytes)
    }
}

} // verus!
