//! The renderer: from the pieces of a document to its HTML.

use vstd::prelude::*;
use vstd::utf8::*;
use crate::component::{FormatState, HTMLComponent, Token};
use crate::document::MDFile;
use crate::encoding::{lemma_encode_ascii, lemma_encode_concat, text_of};
use crate::grammar::tokenize;

verus! {

/// The character for a decimal digit.
pub open spec fn digit(value: int) -> char {
    if value == 0 {
        '0'
    } else if value == 1 {
        '1'
    } else if value == 2 {
        '2'
    } else if value == 3 {
        '3'
    } else if value == 4 {
        '4'
    } else if value == 5 {
        '5'
    } else if value == 6 {
        '6'
    } else if value == 7 {
        '7'
    } else if value == 8 {
        '8'
    } else {
        '9'
    }
}

/// A natural number in decimal, without leading zeros.
pub open spec fn digits(value: nat) -> Seq<char>
    decreases value,
{
    if value < 10 {
        seq![digit(value as int)]
    } else {
        digits(value / 10).push(digit((value % 10) as int))
    }
}

/// An integer in decimal, with a minus sign where it is negative.
pub open spec fn decimal(value: int) -> Seq<char> {
    if value < 0 {
        seq!['-'] + digits((-value) as nat)
    } else {
        digits(value as nat)
    }
}

/// The tag that opens a heading.
pub open spec fn opening_tag(level: int) -> Seq<char> {
    "<h"@ + decimal(level) + ">"@
}

/// The tag that closes a heading.
pub open spec fn closing_tag(level: int) -> Seq<char> {
    "</h"@ + decimal(level) + ">"@
}

/// What one piece contributes to the HTML while a heading of `level` is open
/// (0: none is).
pub open spec fn emitted(piece: Token, level: int) -> Seq<char> {
    match piece {
        Token::Content(text) => text,
        Token::NewLine => if level != 0 {
            closing_tag(level) + "<br>"@
        } else {
            "<br>"@
        },
        Token::Heading(opened) => opening_tag(opened),
        Token::Link(display, link) => "<a href=\""@ + link + "\">"@ + display + "</a>"@,
        Token::RawHTML(code) => code,
        Token::Image(address) => "<img src=\""@ + address + "\" >"@,
    }
}

/// The heading that is open after one piece, given the one open before it.
pub open spec fn level_after(piece: Token, level: int) -> int {
    match piece {
        Token::NewLine => 0,
        Token::Heading(opened) => opened,
        _ => level,
    }
}

/// The heading that is open after `pieces`, rendered from left to right starting
/// with `level`.
pub open spec fn final_level(pieces: Seq<Token>, level: int) -> int
    decreases pieces.len(),
{
    if pieces.len() == 0 {
        level
    } else {
        level_after(pieces.last(), final_level(pieces.drop_last(), level))
    }
}

/// The HTML of `pieces`, rendered from left to right starting with `level`.
pub open spec fn render_text(pieces: Seq<Token>, level: int) -> Seq<char>
    decreases pieces.len(),
{
    if pieces.len() == 0 {
        Seq::empty()
    } else {
        render_text(pieces.drop_last(), level) + emitted(
            pieces.last(),
            final_level(pieces.drop_last(), level),
        )
    }
}

/// Appends the bytes of `input` to `bytes`.
pub fn push_str(bytes: &mut Vec<u8>, input: &str)
    ensures
        final(bytes)@ == old(bytes)@ + encode_utf8(input@),
{
    let content_bytes = input.as_bytes();
    let mut at: usize = 0;
    while at < content_bytes.len()
        invariant
            at <= content_bytes.len(),
            content_bytes@ == encode_utf8(input@),
            bytes@ == old(bytes)@ + content_bytes@.take(at as int),
        decreases content_bytes.len() - at,
    {
        bytes.push(content_bytes[at]);
        at += 1;
        assert(bytes@ =~= old(bytes)@ + content_bytes@.take(at as int));
    }
    assert(content_bytes@.take(at as int) =~= content_bytes@);
}

/// Appends a natural number in decimal.
fn push_digits(bytes: &mut Vec<u8>, value: u32)
    ensures
        final(bytes)@ == old(bytes)@ + encode_utf8(digits(value as nat)),
    decreases value,
{
    if value >= 10 {
        push_digits(bytes, value / 10);
    }
    let last: u8 = (value % 10) as u8;
    bytes.push(0x30 + last);
    proof {
        let shown = digit(last as int);
        lemma_encode_ascii(shown);
        assert(shown as u8 == 0x30 + last);
        if value >= 10 {
            let front = digits((value / 10) as nat);
            lemma_encode_concat(front, seq![shown]);
            assert(front.push(shown) =~= front + seq![shown]);
            assert(bytes@ =~= old(bytes)@ + (encode_utf8(front) + encode_utf8(seq![shown])));
        } else {
            assert(bytes@ =~= old(bytes)@ + encode_utf8(seq![shown]));
        }
    }
}

/// Appends an integer in decimal.
fn push_decimal(bytes: &mut Vec<u8>, value: i32)
    ensures
        final(bytes)@ == old(bytes)@ + encode_utf8(decimal(value as int)),
{
    if value < 0 {
        bytes.push(0x2d);
        let magnitude: u32 = (-(value as i64)) as u32;
        push_digits(bytes, magnitude);
        proof {
            let shown = digits((-value) as nat);
            lemma_encode_ascii('-');
            lemma_encode_concat(seq!['-'], shown);
            assert(bytes@ =~= old(bytes)@ + (encode_utf8(seq!['-']) + encode_utf8(shown)));
        }
    } else {
        push_digits(bytes, value as u32);
    }
}

/// Appends what `component` contributes to the HTML, and updates the open heading.
pub fn render_component(component: &HTMLComponent, state: &mut FormatState, bytes: &mut Vec<u8>)
    ensures
        final(bytes)@ == old(bytes)@ + encode_utf8(
            emitted(component@, old(state).heading_level as int),
        ),
        final(state).heading_level as int == level_after(
            component@,
            old(state).heading_level as int,
        ),
{
    let ghost held = bytes@;
    match component {
        HTMLComponent::Content(content) => push_str(bytes, content.as_str()),
        HTMLComponent::NewLine => {
            if state.heading_level != 0 {
                push_str(bytes, "</h");
                push_decimal(bytes, state.heading_level);
                push_str(bytes, ">");
                push_str(bytes, "<br>");
                proof {
                    let level = state.heading_level as int;
                    lemma_encode_concat("</h"@, decimal(level));
                    lemma_encode_concat("</h"@ + decimal(level), ">"@);
                    lemma_encode_concat(closing_tag(level), "<br>"@);
                    assert(bytes@ =~= held + encode_utf8(closing_tag(level) + "<br>"@));
                }
                state.heading_level = 0;
            } else {
                push_str(bytes, "<br>");
            }
        },
        HTMLComponent::Heading(heading_level) => {
            state.heading_level = *heading_level;
            push_str(bytes, "<h");
            push_decimal(bytes, *heading_level);
            push_str(bytes, ">");
            proof {
                let level = *heading_level as int;
                lemma_encode_concat("<h"@, decimal(level));
                lemma_encode_concat("<h"@ + decimal(level), ">"@);
                assert(bytes@ =~= held + encode_utf8(opening_tag(level)));
            }
        },
        HTMLComponent::Link(display, link) => {
            push_str(bytes, "<a href=\"");
            push_str(bytes, link.as_str());
            push_str(bytes, "\">");
            push_str(bytes, display.as_str());
            push_str(bytes, "</a>");
            proof {
                let first = "<a href=\""@ + link@;
                let second = first + "\">"@;
                let third = second + display@;
                lemma_encode_concat("<a href=\""@, link@);
                lemma_encode_concat(first, "\">"@);
                lemma_encode_concat(second, display@);
                lemma_encode_concat(third, "</a>"@);
                assert(bytes@ =~= held + encode_utf8(third + "</a>"@));
            }
        },
        HTMLComponent::RawHTML(code) => push_str(bytes, code.as_str()),
        HTMLComponent::Image(address) => {
            push_str(bytes, "<img src=\"");
            push_str(bytes, address.as_str());
            push_str(bytes, "\" >");
            proof {
                let first = "<img src=\""@ + address@;
                lemma_encode_concat("<img src=\""@, address@);
                lemma_encode_concat(first, "\" >"@);
                assert(bytes@ =~= held + encode_utf8(first + "\" >"@));
            }
        },
    }
}

/// Renders `tokens` from left to right. `state` says which heading is open at the
/// start, and holds the one that is open at the end.
pub fn render(tokens: &Vec<HTMLComponent>, state: &mut FormatState) -> (html: String)
    ensures
        html@ == render_text(tokens.deep_view(), old(state).heading_level as int),
        final(state).heading_level as int == final_level(
            tokens.deep_view(),
            old(state).heading_level as int,
        ),
{
    let ghost pieces = tokens.deep_view();
    let ghost start = state.heading_level as int;
    let mut bytes: Vec<u8> = Vec::new();
    let mut index: usize = 0;
    while index < tokens.len()
        invariant
            index <= tokens.len(),
            pieces == tokens.deep_view(),
            bytes@ == encode_utf8(render_text(pieces.take(index as int), start)),
            state.heading_level as int == final_level(pieces.take(index as int), start),
        decreases tokens.len() - index,
    {
        proof {
            let upto = pieces.take(index + 1);
            assert(upto.drop_last() =~= pieces.take(index as int));
            assert(upto.last() == tokens[index as int]@);
            lemma_encode_concat(
                render_text(pieces.take(index as int), start),
                emitted(upto.last(), final_level(pieces.take(index as int), start)),
            );
        }
        render_component(&tokens[index], state, &mut bytes);
        index += 1;
    }
    proof {
        assert(pieces.take(index as int) =~= pieces);
        encode_utf8_valid_utf8(render_text(pieces, start));
        encode_utf8_decode_utf8(render_text(pieces, start));
    }
    text_of(bytes)
}

impl MDFile {
    /// The HTML of the document's text.
    pub fn get_html(&self) -> (html: String)
        ensures
            html@ == render_text(tokenize(self.contents@), 0),
    {
        let html_components = self.get_html_components_iter().unwrap();
        let mut state = FormatState::default();
        render(&html_components, &mut state)
    }
}

} // verus!
