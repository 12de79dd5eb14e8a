//! Conversion of a small backslash-escape markup into HTML.
//!
//! A document is scanned once, from left to right, into a flat sequence of
//! components ([`document::MDFile::get_html_components_iter`]); the components are
//! then rendered in order, with the open heading as the only state
//! ([`render::render`]). [`document::MDFile::to_html`] does both and puts a
//! preamble and a postamble around the result.
//!
//! Scanning never fails: an escape that is not understood is dropped. The scanner
//! reads bytes but steps over whole characters, so no component ever holds part
//! of one. What each function returns is stated over the characters of the text,
//! by the functions of [`grammar`] and [`render`]; [`laws`] holds what follows for
//! every document.

pub mod component;
pub mod document;
pub mod encoding;
pub mod grammar;
pub mod laws;
pub mod path;
pub mod render;
pub mod tokenizer;
