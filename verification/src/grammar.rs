//! The markup, as a function from a text to its pieces.
//!
//! | Written          | Meaning                                      |
//! |------------------|----------------------------------------------|
//! | `\\`             | a backslash                                  |
//! | `\h[...]`        | HTML passed through as it is                 |
//! | `\i[...]`        | an image, by its address                     |
//! | `\l[...][...]`   | a link: the text shown, then the address     |
//! | `\1` to `\6`     | a heading, open until the line ends          |
//! | line feed        | a line break; it ends an open heading        |
//!
//! Carriage returns are dropped. A backslash followed by anything else, or by a
//! selector whose bracket is missing, yields nothing: scanning never fails.

use vstd::prelude::*;
use crate::component::Token;

verus! {

/// The index of the first `target` in `items`, or their number if there is none.
pub open spec fn position<T>(items: Seq<T>, target: T) -> int
    decreases items.len(),
{
    if items.len() == 0 || items[0] == target {
        0
    } else {
        1 + position(items.drop_first(), target)
    }
}

/// What a bracketed span at the head of `rest` holds: everything between the
/// opening bracket and the first closing one, or to the end where none closes it.
/// There is no span where `rest` does not start with an opening bracket.
pub open spec fn span_body<T>(rest: Seq<T>, open: T, close: T) -> Option<Seq<T>> {
    if rest.len() > 0 && rest[0] == open {
        Some(rest.drop_first().take(position(rest.drop_first(), close)))
    } else {
        None
    }
}

/// How much of `rest` reading a bracketed span uses up: nothing at the end of the
/// input, the one item looked at where it is no opening bracket, and otherwise the
/// span with both its brackets (the closing one only if it is there).
pub open spec fn span_len<T>(rest: Seq<T>, open: T, close: T) -> int {
    if rest.len() == 0 {
        0
    } else if rest[0] != open {
        1
    } else {
        let inner = position(rest.drop_first(), close);
        if inner + 1 < rest.len() {
            inner + 2
        } else {
            inner + 1
        }
    }
}

/// The span of characters between `[` and `]` at the head of `rest`.
pub open spec fn bracket_body(rest: Seq<char>) -> Option<Seq<char>> {
    span_body(rest, '[', ']')
}

/// The number of characters that reading a span at the head of `rest` uses up.
pub open spec fn bracket_len(rest: Seq<char>) -> int {
    span_len(rest, '[', ']')
}

/// What one escape amounts to.
pub struct Escape {
    /// The pieces it yields: one, or none where it is dropped.
    pub pieces: Seq<Token>,
    /// The text with which the next run of content starts.
    pub pending: Seq<char>,
    /// The number of characters it uses up after the backslash.
    pub len: int,
}

/// The level that a heading selector stands for, `'1'` to `'6'`.
pub open spec fn heading_level(selector: char) -> int {
    selector as u32 - '0' as u32
}

/// The escape whose backslash is followed by `rest`.
pub open spec fn escape(rest: Seq<char>) -> Escape {
    if rest.len() == 0 {
        Escape { pieces: Seq::empty(), pending: Seq::empty(), len: 0 }
    } else {
        let selector = rest[0];
        let tail = rest.drop_first();
        if selector == '\\' {
            Escape { pieces: Seq::empty(), pending: seq!['\\'], len: 1 }
        } else if selector == 'h' {
            Escape {
                pieces: match bracket_body(tail) {
                    Some(code) => seq![Token::RawHTML(code)],
                    None => Seq::empty(),
                },
                pending: Seq::empty(),
                len: 1 + bracket_len(tail),
            }
        } else if selector == 'i' {
            Escape {
                pieces: match bracket_body(tail) {
                    Some(address) => seq![Token::Image(address)],
                    None => Seq::empty(),
                },
                pending: Seq::empty(),
                len: 1 + bracket_len(tail),
            }
        } else if selector == 'l' {
            match bracket_body(tail) {
                Some(display) => {
                    let second = tail.skip(bracket_len(tail));
                    Escape {
                        pieces: match bracket_body(second) {
                            Some(link) => seq![Token::Link(display, link)],
                            None => Seq::empty(),
                        },
                        pending: Seq::empty(),
                        len: 1 + bracket_len(tail) + bracket_len(second),
                    }
                },
                None => Escape {
                    pieces: Seq::empty(),
                    pending: Seq::empty(),
                    len: 1 + bracket_len(tail),
                },
            }
        } else if '1' <= selector <= '6' {
            Escape {
                pieces: seq![Token::Heading(heading_level(selector))],
                pending: Seq::empty(),
                len: 1,
            }
        } else {
            Escape { pieces: Seq::empty(), pending: Seq::empty(), len: 1 }
        }
    }
}

/// The pieces of `rest`, where `pending` is the content gathered before it and not
/// yet given out.
pub open spec fn scan(rest: Seq<char>, pending: Seq<char>) -> Seq<Token>
    decreases rest.len(),
    via scan_decreases
{
    if rest.len() == 0 {
        seq![Token::Content(pending), Token::NewLine]
    } else if rest[0] == '\n' {
        seq![Token::Content(pending), Token::NewLine] + scan(rest.drop_first(), Seq::empty())
    } else if rest[0] == '\r' {
        scan(rest.drop_first(), pending)
    } else if rest[0] == '\\' {
        let found = escape(rest.drop_first());
        seq![Token::Content(pending)] + found.pieces + scan(
            rest.skip(1 + found.len),
            found.pending,
        )
    } else {
        scan(rest.drop_first(), pending.push(rest[0]))
    }
}

#[via_fn]
proof fn scan_decreases(rest: Seq<char>, pending: Seq<char>) {
    if rest.len() > 0 && rest[0] == '\\' {
        lemma_escape_len(rest.drop_first());
    }
}

/// The pieces of a whole document.
pub open spec fn tokenize(text: Seq<char>) -> Seq<Token> {
    scan(text, Seq::empty())
}

/// The first `target`, if any, lies within the sequence.
pub proof fn lemma_position_bounds<T>(items: Seq<T>, target: T)
    ensures
        0 <= position(items, target) <= items.len(),
        position(items, target) < items.len() ==> items[position(items, target)] == target,
        forall|i: int| 0 <= i < position(items, target) ==> items[i] != target,
    decreases items.len(),
{
    if items.len() == 0 || items[0] == target {
    } else {
        let tail = items.drop_first();
        lemma_position_bounds(tail, target);
        assert forall|i: int| 0 <= i < position(items, target) implies items[i] != target by {
            if i > 0 {
                assert(items[i] == tail[i - 1]);
            }
        }
    }
}

/// Reading a span never runs past the end of the input.
pub proof fn lemma_span_len_bounds<T>(rest: Seq<T>, open: T, close: T)
    ensures
        0 <= span_len(rest, open, close) <= rest.len(),
        rest.len() > 0 ==> span_len(rest, open, close) >= 1,
{
    if rest.len() > 0 {
        lemma_position_bounds(rest.drop_first(), close);
    }
}

/// An escape uses up at least its selector and never more than is left.
pub proof fn lemma_escape_len(rest: Seq<char>)
    ensures
        0 <= escape(rest).len <= rest.len(),
        rest.len() > 0 ==> escape(rest).len >= 1,
{
    if rest.len() > 0 {
        let tail = rest.drop_first();
        lemma_span_len_bounds(tail, '[', ']');
        lemma_span_len_bounds(tail.skip(bracket_len(tail)), '[', ']');
    }
}

} // verus!
