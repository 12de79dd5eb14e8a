//! The pieces a document is cut into, and the state carried while they are rendered.

use vstd::prelude::*;

verus! {

/// One piece of a scanned document.
#[derive(Debug, PartialEq, Eq)]
pub enum HTMLComponent {
    /// A run of text to emit as it is.
    Content(String),
    /// The start of a heading of the given level.
    Heading(i32),
    /// A line break; it also ends the heading that is open, if any.
    NewLine,
    /// A hyperlink: the text shown, then the address.
    Link(String, String),
    /// HTML to pass through untouched.
    RawHTML(String),
    /// An image, by its address.
    Image(String),
}

/// The mathematical value of an [`HTMLComponent`]: texts are character sequences.
pub enum Token {
    Content(Seq<char>),
    Heading(int),
    NewLine,
    Link(Seq<char>, Seq<char>),
    RawHTML(Seq<char>),
    Image(Seq<char>),
}

impl Token {
    /// Whether the token is one that a document can hold: the level of a heading is
    /// at least 1. Rendering takes any token, well formed or not.
    pub open spec fn well_formed(self) -> bool {
        self is Heading ==> self->Heading_0 >= 1
    }
}

impl View for HTMLComponent {
    type V = Token;

    open spec fn view(&self) -> Token {
        match *self {
            HTMLComponent::Content(text) => Token::Content(text@),
            HTMLComponent::Heading(level) => Token::Heading(level as int),
            HTMLComponent::NewLine => Token::NewLine,
            HTMLComponent::Link(display, link) => Token::Link(display@, link@),
            HTMLComponent::RawHTML(code) => Token::RawHTML(code@),
            HTMLComponent::Image(address) => Token::Image(address@),
        }
    }
}

impl DeepView for HTMLComponent {
    type V = Token;

    open spec fn deep_view(&self) -> Token {
        self@
    }
}

impl Clone for HTMLComponent {
    /// A copy with the same value.
    fn clone(&self) -> (copy: Self)
        ensures
            copy@ == self@,
    {
        match self {
            HTMLComponent::Content(text) => HTMLComponent::Content(text.clone()),
            HTMLComponent::Heading(level) => HTMLComponent::Heading(*level),
            HTMLComponent::NewLine => HTMLComponent::NewLine,
            HTMLComponent::Link(display, link) => HTMLComponent::Link(
                display.clone(),
                link.clone(),
            ),
            HTMLComponent::RawHTML(code) => HTMLComponent::RawHTML(code.clone()),
            HTMLComponent::Image(address) => HTMLComponent::Image(address.clone()),
        }
    }
}

/// What rendering carries from one piece to the next.
pub struct FormatState {
    /// The level of the heading that is open; 0 when none is.
    pub heading_level: i32,
}

impl Default for FormatState {
    /// The state a rendering starts in: no heading is open.
    fn default() -> (state: FormatState)
        ensures
            state.heading_level == 0,
    {
        FormatState { heading_level: 0 }
    }
}

} // verus!
