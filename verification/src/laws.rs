//! What holds of every document: laws that relate scanning and rendering.

use vstd::prelude::*;
use crate::component::Token;
use crate::grammar::{
    bracket_body, bracket_len, escape, lemma_escape_len, lemma_position_bounds, position, scan,
    tokenize,
};
use crate::render::{emitted, final_level, render_text};

verus! {

/// Text without markup: no backslash, no line feed, and no carriage return, which
/// scanning drops.
pub open spec fn is_plain(text: Seq<char>) -> bool {
    forall|i: int|
        0 <= i < text.len() ==> #[trigger] text[i] != '\\' && text[i] != '\n' && text[i] != '\r'
}

/// Scanning plain text only gathers it: it comes out as one run of content, behind
/// what was pending, and one line break.
pub proof fn lemma_scan_plain(rest: Seq<char>, pending: Seq<char>)
    requires
        is_plain(rest),
    ensures
        scan(rest, pending) == seq![Token::Content(pending + rest), Token::NewLine],
    decreases rest.len(),
{
    if rest.len() == 0 {
        assert(pending + rest =~= pending);
    } else {
        let tail = rest.drop_first();
        assert(rest[0] != '\\' && rest[0] != '\n' && rest[0] != '\r');
        assert forall|i: int| 0 <= i < tail.len() implies #[trigger] tail[i] != '\\' && tail[i]
            != '\n' && tail[i] != '\r' by {
            assert(tail[i] == rest[i + 1]);
        }
        lemma_scan_plain(tail, pending.push(rest[0]));
        assert(pending.push(rest[0]) + tail =~= pending + rest);
    }
}

/// A document of plain text is one piece of content, the text itself, followed by
/// one line break.
pub proof fn law_plain_text_is_one_content(text: Seq<char>)
    requires
        is_plain(text),
    ensures
        tokenize(text) == seq![Token::Content(text), Token::NewLine],
{
    lemma_scan_plain(text, Seq::empty());
    assert(Seq::<char>::empty() + text =~= text);
}

/// Plain text comes back unchanged from scanning and rendering, but for the line
/// break that ends every document.
pub proof fn law_plain_text_round_trip(text: Seq<char>)
    requires
        is_plain(text),
    ensures
        render_text(tokenize(text), 0) == text + "<br>"@,
{
    law_plain_text_is_one_content(text);
    let pieces = seq![Token::Content(text), Token::NewLine];
    let front = pieces.drop_last();
    assert(front =~= seq![Token::Content(text)]);
    assert(front.drop_last() =~= Seq::<Token>::empty());
    reveal_with_fuel(render_text, 3);
    reveal_with_fuel(final_level, 3);
    assert(render_text(front, 0) =~= text);
    assert(final_level(front, 0) == 0);
}

/// Rendering two runs of pieces one after the other is rendering the first, then
/// the second from the state that the first leaves.
pub proof fn law_render_in_parts(first: Seq<Token>, second: Seq<Token>, level: int)
    ensures
        final_level(first + second, level) == final_level(second, final_level(first, level)),
        render_text(first + second, level) == render_text(first, level) + render_text(
            second,
            final_level(first, level),
        ),
    decreases second.len(),
{
    if second.len() == 0 {
        assert(first + second =~= first);
        assert(render_text(first, level) + Seq::<char>::empty() =~= render_text(first, level));
    } else {
        let whole = first + second;
        assert(whole.drop_last() =~= first + second.drop_last());
        assert(whole.last() == second.last());
        law_render_in_parts(first, second.drop_last(), level);
        assert(render_text(whole, level) =~= render_text(first, level) + render_text(
            second,
            final_level(first, level),
        ));
    }
}

/// A line break closes the heading that is open: it emits that heading's closing
/// tag before the break, and no heading is open after it.
pub proof fn law_line_break_closes_heading(pieces: Seq<Token>, level: int)
    ensures
        final_level(pieces.push(Token::NewLine), level) == 0,
        render_text(pieces.push(Token::NewLine), level) == render_text(pieces, level) + emitted(
            Token::NewLine,
            final_level(pieces, level),
        ),
{
    let whole = pieces.push(Token::NewLine);
    assert(whole.drop_last() =~= pieces);
    assert(whole.last() == Token::NewLine);
}

/// What a piece contributes stands in the HTML between what the pieces before it
/// and the pieces after it contribute.
pub proof fn law_piece_is_rendered_in_place(pieces: Seq<Token>, at: int, level: int)
    requires
        0 <= at < pieces.len(),
    ensures
        render_text(pieces, level) == render_text(pieces.take(at), level) + emitted(
            pieces[at],
            final_level(pieces.take(at), level),
        ) + render_text(pieces.skip(at + 1), final_level(pieces.take(at + 1), level)),
{
    let upto = pieces.take(at + 1);
    assert(pieces =~= upto + pieces.skip(at + 1));
    law_render_in_parts(upto, pieces.skip(at + 1), level);
    assert(upto.drop_last() =~= pieces.take(at));
    assert(upto.last() == pieces[at]);
}

/// Raw HTML comes out as it went in: the HTML of pieces among which one is raw
/// HTML holds that piece's code, untouched, at its place.
pub proof fn law_raw_html_passes_through(
    pieces: Seq<Token>,
    at: int,
    level: int,
    code: Seq<char>,
)
    requires
        0 <= at < pieces.len(),
        pieces[at] == Token::RawHTML(code),
    ensures
        render_text(pieces, level) == render_text(pieces.take(at), level) + code + render_text(
            pieces.skip(at + 1),
            final_level(pieces.take(at), level),
        ),
{
    law_piece_is_rendered_in_place(pieces, at, level);
    let upto = pieces.take(at + 1);
    assert(upto.drop_last() =~= pieces.take(at));
    assert(upto.last() == pieces[at]);
}

/// Whatever is scanned, the pieces end with a run of content and a line break.
pub proof fn lemma_scan_ending(rest: Seq<char>, pending: Seq<char>)
    ensures
        ({
            let pieces = scan(rest, pending);
            &&& pieces.len() >= 2
            &&& pieces[pieces.len() - 2] is Content
            &&& pieces.last() == Token::NewLine
        }),
    decreases rest.len(),
{
    if rest.len() == 0 {
    } else if rest[0] == '\n' {
        lemma_scan_ending(rest.drop_first(), Seq::empty());
    } else if rest[0] == '\r' {
        lemma_scan_ending(rest.drop_first(), pending);
    } else if rest[0] == '\\' {
        let found = escape(rest.drop_first());
        lemma_escape_len(rest.drop_first());
        lemma_scan_ending(rest.skip(1 + found.len), found.pending);
    } else {
        lemma_scan_ending(rest.drop_first(), pending.push(rest[0]));
    }
}

/// The pieces of every document end with a run of content, which may be empty, and
/// a line break. So no heading stays open at the end of a document, whichever was
/// open at its start: the last line break closes it.
pub proof fn law_document_ends_closed(text: Seq<char>, level: int)
    ensures
        tokenize(text).len() >= 2,
        tokenize(text)[tokenize(text).len() - 2] is Content,
        tokenize(text).last() == Token::NewLine,
        final_level(tokenize(text), level) == 0,
{
    lemma_scan_ending(text, Seq::empty());
    let pieces = tokenize(text);
    assert(pieces =~= pieces.drop_last().push(Token::NewLine));
    law_line_break_closes_heading(pieces.drop_last(), level);
}

/// A span whose closing bracket is missing runs to the end of the input, and
/// reading it uses up all that is left.
pub proof fn law_unclosed_span_takes_the_rest(rest: Seq<char>)
    requires
        rest.len() > 0,
        rest[0] == '[',
        forall|i: int| 1 <= i < rest.len() ==> rest[i] != ']',
    ensures
        bracket_body(rest) == Some(rest.drop_first()),
        bracket_len(rest) == rest.len(),
{
    let inner = rest.drop_first();
    lemma_position_bounds(inner, ']');
    let found = position(inner, ']');
    if found < inner.len() {
        assert(inner[found] == rest[found + 1]);
    }
    assert(inner.take(found) =~= inner);
}

/// Every token of a document is well formed, and the level of every heading
/// among them is between 1 and 6.
pub proof fn law_heading_levels(text: Seq<char>, at: int)
    requires
        0 <= at < tokenize(text).len(),
    ensures
        tokenize(text)[at].well_formed(),
        tokenize(text)[at] is Heading ==> 1 <= tokenize(text)[at]->Heading_0 <= 6,
{
    if tokenize(text)[at] is Heading {
        lemma_scan_headings(text, Seq::empty(), at);
    }
}

/// The level of every heading among scanned pieces is between 1 and 6.
pub proof fn lemma_scan_headings(rest: Seq<char>, pending: Seq<char>, at: int)
    requires
        0 <= at < scan(rest, pending).len(),
        scan(rest, pending)[at] is Heading,
    ensures
        1 <= scan(rest, pending)[at]->Heading_0 <= 6,
    decreases rest.len(),
{
    if rest.len() == 0 {
    } else if rest[0] == '\n' {
        if at >= 2 {
            lemma_scan_headings(rest.drop_first(), Seq::empty(), at - 2);
        }
    } else if rest[0] == '\r' {
        lemma_scan_headings(rest.drop_first(), pending, at);
    } else if rest[0] == '\\' {
        let found = escape(rest.drop_first());
        lemma_escape_len(rest.drop_first());
        if at >= 1 + found.pieces.len() {
            lemma_scan_headings(
                rest.skip(1 + found.len),
                found.pending,
                at - 1 - found.pieces.len(),
            );
        }
    } else {
        lemma_scan_headings(rest.drop_first(), pending.push(rest[0]), at);
    }
}

} // verus!
